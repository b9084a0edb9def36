use vstd::prelude::*;
use crate::plan::{two_pow, four_pow};

verus! {

/// The deepest division the generator accepts: beyond it the index buffer
/// no longer fits 32-bit addressing.
pub const MAX_DIVISION: usize = 13;

/// Subdivision slots cut into each of the 30 shared edges at division `d`.
pub open spec fn shared_unit(d: nat) -> int {
    two_pow(d) - 1
}

/// Vertices strictly interior to one face at division `d`.  One division
/// step cuts three inner arcs of `two_pow(d - 1) - 1` slots each and then
/// divides the four sub-faces.
pub open spec fn inner_unit(d: nat) -> int
    decreases d,
{
    if d == 0 {
        0
    } else {
        3 * (two_pow((d - 1) as nat) - 1) + 4 * inner_unit((d - 1) as nat)
    }
}

/// Total vertices of an icosphere at division `d`: the 12 seeds, the shared
/// edge region and the per-face interior regions.
pub open spec fn vertex_count(d: nat) -> int {
    12 + 30 * shared_unit(d) + 20 * inner_unit(d)
}

/// Total indices of an icosphere at division `d`: 20 faces of `4^d`
/// triangles, 3 indices each.
pub open spec fn index_count(d: nat) -> int {
    60 * four_pow(d) as int
}

pub proof fn lemma_two_pow_pos(k: nat)
    ensures
        two_pow(k) >= 1,
    decreases k,
{
    if k > 0 {
        lemma_two_pow_pos((k - 1) as nat);
    }
}

pub proof fn lemma_two_pow_le(a: nat, b: nat)
    requires
        a <= b,
    ensures
        two_pow(a) <= two_pow(b),
    decreases b,
{
    if a < b {
        lemma_two_pow_le(a, (b - 1) as nat);
    }
}

pub proof fn lemma_four_pow_le(a: nat, b: nat)
    requires
        a <= b,
    ensures
        four_pow(a) <= four_pow(b),
    decreases b,
{
    if a < b {
        lemma_four_pow_le(a, (b - 1) as nat);
    }
}

pub proof fn lemma_inner_unit_nonneg(d: nat)
    ensures
        inner_unit(d) >= 0,
    decreases d,
{
    if d > 0 {
        lemma_two_pow_pos((d - 1) as nat);
        lemma_inner_unit_nonneg((d - 1) as nat);
    }
}

/// The interior count in closed form: `inner_unit(d)` is the triangular
/// number `(2^d - 2)(2^d - 1) / 2`, stated here without the division.
pub proof fn lemma_inner_unit_closed(d: nat)
    ensures
        2 * inner_unit(d) == (two_pow(d) - 2) * (two_pow(d) - 1),
    decreases d,
{
    if d == 0 {
        assert(two_pow(0) == 1);
        assert(2 * inner_unit(d) == (two_pow(d) - 2) * (two_pow(d) - 1));
    } else {
        lemma_inner_unit_closed((d - 1) as nat);
        lemma_two_pow_pos((d - 1) as nat);
        let y = two_pow((d - 1) as nat) as int;
        assert(two_pow(d) == 2 * y);
        assert(2 * inner_unit(d) == 6 * (y - 1) + 4 * ((y - 2) * (y - 1)));
        assert((2 * y - 2) * (2 * y - 1) == 6 * (y - 1) + 4 * ((y - 2) * (y - 1)))
            by (nonlinear_arith);
        assert((two_pow(d) - 2) * (two_pow(d) - 1) == (2 * y - 2) * (2 * y - 1))
            by (nonlinear_arith)
            requires
                two_pow(d) == 2 * y,
        ;
        assert(2 * inner_unit(d) == (two_pow(d) - 2) * (two_pow(d) - 1));
    }
}

/// The vertex count in closed form: `10 * 4^d + 2`.
pub proof fn lemma_vertex_count_closed(d: nat)
    ensures
        vertex_count(d) == 10 * four_pow(d) + 2,
    decreases d,
{
    if d == 0 {
    } else {
        lemma_vertex_count_closed((d - 1) as nat);
        let y = two_pow((d - 1) as nat) as int;
        assert(two_pow(d) == 2 * y);
        assert(four_pow(d) == 4 * four_pow((d - 1) as nat));
    }
}

proof fn lemma_two_pow_13()
    ensures
        two_pow(13) == 8192,
{
    reveal_with_fuel(two_pow, 14);
}

proof fn lemma_four_pow_13()
    ensures
        four_pow(13) == 67108864,
{
    reveal_with_fuel(four_pow, 14);
}

proof fn lemma_mul_le_both(a: int, b: int, c: int, d: int)
    by (nonlinear_arith)
    requires
        0 <= a <= b,
        0 <= c <= d,
    ensures
        a * c <= b * d,
{
}

/// `2^k`, executably.
pub fn two_pow_exec(k: usize) -> (r: usize)
    requires
        two_pow(k as nat) <= usize::MAX,
    ensures
        r == two_pow(k as nat),
    decreases k,
{
    if k == 0 {
        1
    } else {
        let h = two_pow_exec(k - 1);
        2 * h
    }
}

/// `4^k`, executably.
pub fn four_pow_exec(k: usize) -> (r: usize)
    requires
        four_pow(k as nat) <= usize::MAX,
    ensures
        r == four_pow(k as nat),
    decreases k,
{
    if k == 0 {
        1
    } else {
        let h = four_pow_exec(k - 1);
        4 * h
    }
}

/// How many vertices an icosphere of the given division holds.
pub fn icosphere_vertex_count(division: usize) -> (n: usize)
    requires
        division <= MAX_DIVISION,
    ensures
        n == vertex_count(division as nat),
{
    proof {
        lemma_two_pow_le(division as nat, 13);
        lemma_two_pow_13();
    }
    if division == 0 {
        12
    } else {
        let p = two_pow_exec(division);
        proof {
            lemma_two_pow_pos((division - 1) as nat);
            assert(p >= 2);
            lemma_inner_unit_closed(division as nat);
            lemma_mul_le_both(p - 2, 8190, p - 1, 8191);
        }
        let inner = (p - 2) * (p - 1) / 2;
        12 + 30 * (p - 1) + 20 * inner
    }
}

/// How many indices an icosphere of the given division holds.
pub fn icosphere_index_count(division: usize) -> (n: usize)
    requires
        division <= MAX_DIVISION,
    ensures
        n == index_count(division as nat),
{
    proof {
        lemma_four_pow_le(division as nat, 13);
        lemma_four_pow_13();
    }
    let f = four_pow_exec(division);
    60 * f
}

} // verus!

verus! {

use crate::mesh::{Edge, EdgeM, Face, FaceM, edge_of, face_of};
use crate::plan::{
    Bisection, Cut, arc_cuts, cuts_of, idx_of, is_arc_len, lemma_idx_of_push, push_arc_cuts,
};

/// Every slot a face's subdivision touches stays below `u32::MAX`, and its
/// edges have the span length division `d` demands.
pub open spec fn face_sized(f: FaceM, d: nat) -> bool {
    &&& f.v.len() == 3
    &&& f.e.len() == 3
    &&& (forall|i: int| 0 <= i < 3 ==> 0 <= #[trigger] f.v[i] <= u32::MAX)
    &&& (forall|i: int| 0 <= i < 3 ==> (#[trigger] f.e[i]).len == two_pow(d) - 1)
    &&& (forall|i: int| 0 <= i < 3 ==> 0 <= (#[trigger] f.e[i]).off)
    &&& (forall|i: int| 0 <= i < 3 ==> (#[trigger] f.e[i]).off + f.e[i].len <= u32::MAX)
}

/// The front or back half of an edge span, once its midpoint has been cut.
/// A reverse edge runs against the physical span, so its front half is the
/// physically rear one.
pub open spec fn half_edge(e: EdgeM, front: bool) -> EdgeM {
    if e.fwd == front {
        EdgeM { fwd: e.fwd, off: e.off, len: e.len / 2 }
    } else {
        EdgeM { fwd: e.fwd, off: e.off + e.len / 2 + 1, len: e.len / 2 }
    }
}

/// The corner sub-face that keeps corner `i` (0, 1 or 2) of `f`, bounded by
/// the nearest halves of two original edges and one of the three freshly cut
/// arcs between edge midpoints, which start at slot `off` in blocks of
/// `half`.
pub open spec fn sub_face(f: FaceM, off: int, half: int, i: int) -> FaceM {
    let mid_i = f.e[i].off + half;
    let mid_p = f.e[(i + 2) % 3].off + half;
    FaceM {
        v: seq![f.v[i], mid_i, mid_p],
        e: seq![
            half_edge(f.e[i], true),
            EdgeM { fwd: true, off: off + i * half, len: half },
            half_edge(f.e[(i + 2) % 3], false),
        ],
    }
}

/// The central sub-face: the three edge midpoints, with every edge reading
/// one of the freshly cut arcs in reverse, since its winding runs against
/// the corner faces that own them.
pub open spec fn center_face(f: FaceM, off: int, half: int) -> FaceM {
    FaceM {
        v: seq![f.e[0].off + half, f.e[1].off + half, f.e[2].off + half],
        e: seq![
            EdgeM { fwd: false, off: off + half, len: half },
            EdgeM { fwd: false, off: off + 2 * half, len: half },
            EdgeM { fwd: false, off: off, len: half },
        ],
    }
}

/// The cuts emitted when face `f` is divided `d` more times, its interior
/// slots starting at `off`: first the three arcs between edge midpoints,
/// then the three corner sub-faces and the central one, recursively.
pub open spec fn divide_cuts(f: FaceM, d: nat, off: int) -> Seq<Cut>
    decreases d,
{
    if d == 0 {
        Seq::empty()
    } else {
        let dm = (d - 1) as nat;
        let half = two_pow(dm) - 1;
        let mid0 = f.e[0].off + half;
        let mid1 = f.e[1].off + half;
        let mid2 = f.e[2].off + half;
        let new_off = off + 3 * half;
        let il = inner_unit(dm);
        arc_cuts(off, half, mid0, mid2) + arc_cuts(off + half, half, mid1, mid0) + arc_cuts(
            off + 2 * half,
            half,
            mid2,
            mid1,
        ) + divide_cuts(sub_face(f, off, half, 0), dm, new_off) + divide_cuts(
            sub_face(f, off, half, 1),
            dm,
            new_off + il,
        ) + divide_cuts(sub_face(f, off, half, 2), dm, new_off + 2 * il) + divide_cuts(
            center_face(f, off, half),
            dm,
            new_off + 3 * il,
        )
    }
}

/// The triangle indices emitted when face `f` is divided `d` more times: at
/// depth 0 the face itself is one triangle.
pub open spec fn divide_idx(f: FaceM, d: nat, off: int) -> Seq<int>
    decreases d,
{
    if d == 0 {
        seq![f.v[0], f.v[1], f.v[2]]
    } else {
        let dm = (d - 1) as nat;
        let half = two_pow(dm) - 1;
        let new_off = off + 3 * half;
        let il = inner_unit(dm);
        divide_idx(sub_face(f, off, half, 0), dm, new_off) + divide_idx(
            sub_face(f, off, half, 1),
            dm,
            new_off + il,
        ) + divide_idx(sub_face(f, off, half, 2), dm, new_off + 2 * il) + divide_idx(
            center_face(f, off, half),
            dm,
            new_off + 3 * il,
        )
    }
}

fn edge_parts(e: &Edge) -> (r: (usize, usize))
    ensures
        r.0 as int == edge_of(*e).off,
        r.1 as int == edge_of(*e).len,
{
    match *e {
        Edge::Forward { off, len } => (off, len),
        Edge::Reverse { off, len } => (off, len),
    }
}

fn make_half_edge(e: &Edge, front: bool) -> (r: Edge)
    requires
        1 <= edge_of(*e).len,
        edge_of(*e).off + edge_of(*e).len <= u32::MAX,
    ensures
        edge_of(r) == half_edge(edge_of(*e), front),
{
    match (*e, front) {
        (Edge::Forward { off, len }, true) => Edge::Forward { off, len: len / 2 },
        (Edge::Forward { off, len }, false) => Edge::Forward {
            off: off + len / 2 + 1,
            len: len / 2,
        },
        (Edge::Reverse { off, len }, false) => Edge::Reverse { off, len: len / 2 },
        (Edge::Reverse { off, len }, true) => Edge::Reverse {
            off: off + len / 2 + 1,
            len: len / 2,
        },
    }
}

} // verus!

verus! {

/// Dividing a well-sized face yields four well-sized sub-faces for the next
/// depth.
proof fn lemma_sub_faces_sized(fm: FaceM, off: int, half: int, d: nat)
    requires
        d >= 1,
        face_sized(fm, d),
        half == two_pow((d - 1) as nat) - 1,
        0 <= off,
        off + 3 * half <= u32::MAX,
    ensures
        face_sized(sub_face(fm, off, half, 0), (d - 1) as nat),
        face_sized(sub_face(fm, off, half, 1), (d - 1) as nat),
        face_sized(sub_face(fm, off, half, 2), (d - 1) as nat),
        face_sized(center_face(fm, off, half), (d - 1) as nat),
{
    let dm = (d - 1) as nat;
    lemma_two_pow_pos(dm);
    assert(two_pow(d) == 2 * two_pow(dm));
    assert(fm.e[0].len == 2 * half + 1 && fm.e[1].len == 2 * half + 1 && fm.e[2].len == 2 * half
        + 1);
    assert forall|i: int| 0 <= i < 3 implies {
        &&& 0 <= #[trigger] fm.e[i].off
        &&& fm.e[i].off + fm.e[i].len <= u32::MAX
        &&& half_edge(fm.e[i], true).len == half
        &&& half_edge(fm.e[i], false).len == half
        &&& 0 <= half_edge(fm.e[i], true).off
        &&& 0 <= half_edge(fm.e[i], false).off
        &&& half_edge(fm.e[i], true).off + half <= u32::MAX
        &&& half_edge(fm.e[i], false).off + half <= u32::MAX
        &&& 0 <= fm.e[i].off + half <= u32::MAX
    } by {
        assert(fm.e[i].len == 2 * half + 1);
        assert(fm.e[i].len / 2 == half);
    }
}

/// Appends to `plan` the bisections and to `indices` the triangles that
/// divide face `f` a further `d` times, filling the `len` interior slots
/// that start at `off`.
#[verifier::rlimit(100)]
#[verifier::spinoff_prover]
pub fn divide_face(
    plan: &mut Vec<Bisection>,
    indices: &mut Vec<u32>,
    f: &Face,
    d: usize,
    off: usize,
    len: usize,
)
    requires
        d <= MAX_DIVISION,
        face_sized(face_of(*f), d as nat),
        len == inner_unit(d as nat),
        off + len <= u32::MAX,
    ensures
        cuts_of(final(plan)@) == cuts_of(old(plan)@) + divide_cuts(
            face_of(*f),
            d as nat,
            off as int,
        ),
        idx_of(final(indices)@) == idx_of(old(indices)@) + divide_idx(
            face_of(*f),
            d as nat,
            off as int,
        ),
    decreases d,
{
    let ghost fm = face_of(*f);
    let ghost pre_cuts = cuts_of(plan@);
    let ghost pre_idx = idx_of(indices@);
    if d == 0 {
        let ghost s0 = indices@;
        indices.push(f.v[0] as u32);
        let ghost s1 = indices@;
        indices.push(f.v[1] as u32);
        let ghost s2 = indices@;
        indices.push(f.v[2] as u32);
        proof {
            lemma_idx_of_push(s0, (f.v[0] as u32));
            lemma_idx_of_push(s1, (f.v[1] as u32));
            lemma_idx_of_push(s2, (f.v[2] as u32));
            assert(idx_of(indices@) =~= pre_idx + divide_idx(fm, 0, off as int));
            assert(cuts_of(plan@) =~= pre_cuts + divide_cuts(fm, 0, off as int));
        }
        return ;
    }
    let ghost dm = (d - 1) as nat;
    proof {
        lemma_two_pow_le(dm, 13);
        lemma_two_pow_13();
        lemma_two_pow_pos(dm);
        lemma_inner_unit_nonneg(dm);
        assert(two_pow(d as nat) == 2 * two_pow(dm));
        assert(len == 3 * (two_pow(dm) - 1) + 4 * inner_unit(dm));
    }
    let half = two_pow_exec(d - 1) - 1;
    let (e0_off, e0_len) = edge_parts(&f.e[0]);
    let (e1_off, e1_len) = edge_parts(&f.e[1]);
    let (e2_off, e2_len) = edge_parts(&f.e[2]);
    proof {
        assert(fm.e[0] == edge_of(f.e[0]) && fm.e[1] == edge_of(f.e[1]) && fm.e[2] == edge_of(
            f.e[2],
        ));
        assert(e0_len == 2 * half + 1 && e1_len == 2 * half + 1 && e2_len == 2 * half + 1);
    }
    let mid0 = e0_off + half;
    let mid1 = e1_off + half;
    let mid2 = e2_off + half;
    proof {
        assert(half as int == two_pow(dm) - 1);
        assert(is_arc_len(half as int));
        lemma_sub_faces_sized(fm, off as int, half as int, d as nat);
    }
    push_arc_cuts(plan, off, half, mid0, mid2);
    push_arc_cuts(plan, off + half, half, mid1, mid0);
    push_arc_cuts(plan, off + 2 * half, half, mid2, mid1);
    let sf0 = Face {
        v: [f.v[0], mid0, mid2],
        e: [
            make_half_edge(&f.e[0], true),
            Edge::Forward { off: off, len: half },
            make_half_edge(&f.e[2], false),
        ],
    };
    let sf1 = Face {
        v: [f.v[1], mid1, mid0],
        e: [
            make_half_edge(&f.e[1], true),
            Edge::Forward { off: off + half, len: half },
            make_half_edge(&f.e[0], false),
        ],
    };
    let sf2 = Face {
        v: [f.v[2], mid2, mid1],
        e: [
            make_half_edge(&f.e[2], true),
            Edge::Forward { off: off + 2 * half, len: half },
            make_half_edge(&f.e[1], false),
        ],
    };
    let sf3 = Face {
        v: [mid0, mid1, mid2],
        e: [
            Edge::Reverse { off: off + half, len: half },
            Edge::Reverse { off: off + 2 * half, len: half },
            Edge::Reverse { off: off, len: half },
        ],
    };
    proof {
        assert(face_of(sf0) =~~= sub_face(fm, off as int, half as int, 0));
        assert(face_of(sf1) =~~= sub_face(fm, off as int, half as int, 1));
        assert(face_of(sf2) =~~= sub_face(fm, off as int, half as int, 2));
        assert(face_of(sf3) =~~= center_face(fm, off as int, half as int));
    }
    let new_off = off + 3 * half;
    let new_len = (len - 3 * half) / 4;
    proof {
        assert(new_len == inner_unit(dm));
    }
    divide_face(plan, indices, &sf0, d - 1, new_off, new_len);
    divide_face(plan, indices, &sf1, d - 1, new_off + new_len, new_len);
    divide_face(plan, indices, &sf2, d - 1, new_off + 2 * new_len, new_len);
    divide_face(plan, indices, &sf3, d - 1, new_off + 3 * new_len, new_len);
    proof {
        assert(cuts_of(plan@) =~= pre_cuts + divide_cuts(fm, d as nat, off as int));
        assert(idx_of(indices@) =~= pre_idx + divide_idx(fm, d as nat, off as int));
    }
}

} // verus!

verus! {

use crate::mesh::{icosahedron_faces, seed_face};

/// The cuts that face `f` performs on the edge spans it owns: position `p`
/// runs from corner `p` to corner `(p + 1) % 3`.  Spans tagged reverse
/// belong to a neighbour and are not cut twice.
pub open spec fn fwd_cut(f: FaceM, p: int) -> Seq<Cut> {
    if f.e[p].fwd {
        arc_cuts(f.e[p].off, f.e[p].len, f.v[p], f.v[(p + 1) % 3])
    } else {
        Seq::empty()
    }
}

pub open spec fn face_fwd_cuts(f: FaceM) -> Seq<Cut> {
    fwd_cut(f, 0) + fwd_cut(f, 1) + fwd_cut(f, 2)
}

/// The shared-edge cuts of the first `n` seed faces.
pub open spec fn edge_cuts_upto(n: int, so: int, u: int) -> Seq<Cut>
    decreases n,
{
    if n <= 0 {
        Seq::empty()
    } else {
        edge_cuts_upto(n - 1, so, u) + face_fwd_cuts(seed_face(n - 1, so, u))
    }
}

/// The interior cuts of the first `n` seed faces, each face filling its own
/// block of `inner_unit(d)` slots from `io` on.
pub open spec fn face_cuts_upto(n: int, d: nat, so: int, u: int, io: int) -> Seq<Cut>
    decreases n,
{
    if n <= 0 {
        Seq::empty()
    } else {
        face_cuts_upto(n - 1, d, so, u, io) + divide_cuts(
            seed_face(n - 1, so, u),
            d,
            io + (n - 1) * inner_unit(d),
        )
    }
}

/// The triangle indices of the first `n` seed faces.
pub open spec fn face_idx_upto(n: int, d: nat, so: int, u: int, io: int) -> Seq<int>
    decreases n,
{
    if n <= 0 {
        Seq::empty()
    } else {
        face_idx_upto(n - 1, d, so, u, io) + divide_idx(
            seed_face(n - 1, so, u),
            d,
            io + (n - 1) * inner_unit(d),
        )
    }
}

/// The whole subdivision plan of an icosphere at division `d`: the 12 seeds
/// sit first, each of the 30 shared edges is cut exactly once by the face
/// that owns it, and then every face fills its own interior block.
pub open spec fn icosphere_cuts(d: nat) -> Seq<Cut> {
    edge_cuts_upto(20, 12, shared_unit(d)) + face_cuts_upto(
        20,
        d,
        12,
        shared_unit(d),
        12 + 30 * shared_unit(d),
    )
}

/// The triangle index buffer of an icosphere at division `d`.
pub open spec fn icosphere_idx(d: nat) -> Seq<int> {
    face_idx_upto(20, d, 12, shared_unit(d), 12 + 30 * shared_unit(d))
}

/// Every seed face is well sized, its corners are seed vertices, and its
/// edge spans stay inside the shared region.
proof fn lemma_seed_face_sized(i: int, so: int, u: int, d: nat)
    requires
        0 <= i < 20,
        u == two_pow(d) - 1,
        0 <= so,
        so + 30 * u <= u32::MAX,
    ensures
        face_sized(seed_face(i, so, u), d),
        forall|p: int| 0 <= p < 3 ==> 0 <= #[trigger] seed_face(i, so, u).v[p] < 12,
        forall|p: int|
            0 <= p < 3 ==> so <= (#[trigger] seed_face(i, so, u).e[p]).off && seed_face(
                i,
                so,
                u,
            ).e[p].off + u <= so + 30 * u,
{
    lemma_two_pow_pos(d);
    let i2 = i / 2;
    lemma_block_bounds(i2, 30, u);
    lemma_block_bounds(i2 + 1, 30, u);
    lemma_block_bounds((i2 + 2) % 10, 30, u);
    lemma_block_bounds(i2 + 10, 30, u);
    lemma_block_bounds(i2 + 11, 30, u);
    lemma_block_bounds(i2 + 19, 30, u);
    lemma_block_bounds(i2 + 20, 30, u);
    lemma_block_bounds((i2 + 1) % 10 + 10, 30, u);
    lemma_block_bounds((i2 + 2) % 10 + 20, 30, u);
}

/// Block `m` of `n` blocks of `u` slots each stays inside the region.
proof fn lemma_block_bounds(m: int, n: int, u: int)
    requires
        0 <= m < n,
        0 <= u,
    ensures
        0 <= m * u,
        m * u + u <= n * u,
{
    lemma_mul_le_both(0, m, 0, u);
    lemma_mul_le_both(m + 1, n, u, u);
    assert(m * u + u == (m + 1) * u) by (nonlinear_arith);
}

/// A complete icosphere build plan: how many vertices the buffer holds, the
/// bisections that compute every non-seed vertex, and the triangle indices.
pub struct MeshPlan {
    pub vertex_count: usize,
    pub steps: Vec<Bisection>,
    pub indices: Vec<u32>,
}

impl MeshPlan {
    /// The plan can be evaluated into a buffer of `vertex_count` vertices
    /// whose first 12 slots hold the icosahedron seeds: every step reads
    /// only slots already defined, every non-seed slot is written exactly
    /// once, and every triangle index refers to a vertex of the buffer.
    pub open spec fn wf(self) -> bool {
        &&& 12 <= self.vertex_count
        &&& crate::plan::plan_wf(cuts_of(self.steps@), crate::plan::slot_range(0, 12))
        &&& crate::plan::dests(cuts_of(self.steps@)) == crate::plan::slot_range(
            12,
            self.vertex_count as int,
        )
        &&& self.steps@.len() == self.vertex_count - 12
        &&& forall|k: int|
            0 <= k < self.indices@.len() ==> (#[trigger] self.indices@[k]) < self.vertex_count
    }
}

} // verus!

verus! {

/// Builds the complete subdivision plan of an icosphere at the given
/// division: the bisection steps that compute every non-seed vertex from the
/// 12 seeds, and the triangle index buffer.  At division 0 the plan has no
/// steps and the indices are exactly the icosahedron's.
#[verifier::rlimit(100)]
#[verifier::spinoff_prover]
pub fn icosphere_plan(division: usize) -> (mp: MeshPlan)
    requires
        division <= MAX_DIVISION,
    ensures
        mp.vertex_count == vertex_count(division as nat),
        cuts_of(mp.steps@) == icosphere_cuts(division as nat),
        idx_of(mp.indices@) == icosphere_idx(division as nat),
        mp.indices@.len() == index_count(division as nat),
        mp.wf(),
{
    let ghost d = division as nat;
    proof {
        lemma_two_pow_le(d, 13);
        lemma_two_pow_13();
        lemma_two_pow_pos(d);
        lemma_four_pow_le(d, 13);
        lemma_four_pow_13();
        lemma_vertex_count_closed(d);
        lemma_inner_unit_nonneg(d);
        lemma_inner_unit_closed(d);
    }
    let vc = icosphere_vertex_count(division);
    let unit = two_pow_exec(division) - 1;
    proof {
        if unit == 0 && d > 0 {
            lemma_two_pow_pos((d - 1) as nat);
            assert(two_pow(d) == 2 * two_pow((d - 1) as nat));
        }
        if unit > 0 {
            lemma_mul_le_both(unit - 1, 8190, unit as int, 8191);
        }
    }
    let il = if unit == 0 {
        0
    } else {
        (unit - 1) * unit / 2
    };
    let inner_off = 12 + 30 * unit;
    proof {
        assert(il == inner_unit(d));
        assert(inner_off + 20 * (il as int) == vertex_count(d));
        assert(vertex_count(d) <= u32::MAX);
    }
    let faces = icosahedron_faces(12, unit);
    let mut steps: Vec<Bisection> = Vec::new();
    let mut indices: Vec<u32> = Vec::new();
    let mut i: usize = 0;
    while i < 20
        invariant
            i <= 20,
            d == division as nat,
            unit as int == two_pow(d) - 1,
            12 + 30 * (unit as int) <= u32::MAX,
            faces@.len() == 20,
            forall|j: int|
                0 <= j < 20 ==> face_of(#[trigger] faces@[j]) == seed_face(j, 12, unit as int),
            cuts_of(steps@) == edge_cuts_upto(i as int, 12, unit as int),
            indices@.len() == 0,
        decreases 20 - i,
    {
        let fc = faces[i];
        let ghost fm = face_of(fc);
        proof {
            lemma_seed_face_sized(i as int, 12, unit as int, d);
            assert(fm == seed_face(i as int, 12, unit as int));
            assert(is_arc_len(unit as int));
            assert(fm.e[0] == edge_of(fc.e[0]) && fm.e[1] == edge_of(fc.e[1]) && fm.e[2]
                == edge_of(fc.e[2]));
        }
        let ghost c0 = cuts_of(steps@);
        match fc.e[0] {
            Edge::Forward { off, len } => {
                push_arc_cuts(&mut steps, off, len, fc.v[0], fc.v[1]);
            },
            Edge::Reverse { .. } => {},
        }
        proof {
            assert(cuts_of(steps@) =~= c0 + fwd_cut(fm, 0));
        }
        let ghost c1 = cuts_of(steps@);
        match fc.e[1] {
            Edge::Forward { off, len } => {
                push_arc_cuts(&mut steps, off, len, fc.v[1], fc.v[2]);
            },
            Edge::Reverse { .. } => {},
        }
        proof {
            assert(cuts_of(steps@) =~= c1 + fwd_cut(fm, 1));
        }
        let ghost c2 = cuts_of(steps@);
        match fc.e[2] {
            Edge::Forward { off, len } => {
                push_arc_cuts(&mut steps, off, len, fc.v[2], fc.v[0]);
            },
            Edge::Reverse { .. } => {},
        }
        proof {
            assert(cuts_of(steps@) =~= c2 + fwd_cut(fm, 2));
            assert(cuts_of(steps@) =~= edge_cuts_upto(i + 1, 12, unit as int));
        }
        i = i + 1;
    }
    let mut i: usize = 0;
    while i < 20
        invariant
            i <= 20,
            d == division as nat,
            division <= MAX_DIVISION,
            unit as int == two_pow(d) - 1,
            il == inner_unit(d),
            inner_off == 12 + 30 * unit,
            inner_off + 20 * (il as int) == vertex_count(d),
            vertex_count(d) <= u32::MAX,
            faces@.len() == 20,
            forall|j: int|
                0 <= j < 20 ==> face_of(#[trigger] faces@[j]) == seed_face(j, 12, unit as int),
            cuts_of(steps@) == edge_cuts_upto(20, 12, unit as int) + face_cuts_upto(
                i as int,
                d,
                12,
                unit as int,
                inner_off as int,
            ),
            idx_of(indices@) == face_idx_upto(i as int, d, 12, unit as int, inner_off as int),
        decreases 20 - i,
    {
        let fc = faces[i];
        let ghost fm = face_of(fc);
        proof {
            lemma_seed_face_sized(i as int, 12, unit as int, d);
            assert(fm == seed_face(i as int, 12, unit as int));
            lemma_block_bounds(i as int, 20, il as int);
            lemma_inner_unit_nonneg(d);
        }
        let ghost pc = cuts_of(steps@);
        let ghost pi = idx_of(indices@);
        divide_face(&mut steps, &mut indices, &fc, division, inner_off + i * il, il);
        proof {
            assert(cuts_of(steps@) =~= edge_cuts_upto(20, 12, unit as int) + face_cuts_upto(
                i + 1,
                d,
                12,
                unit as int,
                inner_off as int,
            ));
            assert(idx_of(indices@) =~= face_idx_upto(i + 1, d, 12, unit as int, inner_off as int));
        }
        i = i + 1;
    }
    proof {
        assert(cuts_of(steps@) =~= icosphere_cuts(d));
        assert(idx_of(indices@) =~= icosphere_idx(d));
        crate::laws::lemma_icosphere_plan_wf(d);
        assert(cuts_of(steps@).len() == steps@.len());
        assert(idx_of(indices@).len() == indices@.len());
        assert forall|k: int| 0 <= k < indices@.len() implies (#[trigger] indices@[k]) < vc by {
            assert(idx_of(indices@)[k] == indices@[k] as int);
            assert(0 <= icosphere_idx(d)[k] < vertex_count(d));
        }
    }
    MeshPlan { vertex_count: vc, steps, indices }
}

/// The index buffer of the plain icosahedron: the corner triples of its 20
/// faces, one CCW triangle each.
pub fn icosahedron_indices() -> (idx: Vec<u32>)
    ensures
        idx_of(idx@) == icosphere_idx(0),
{
    let mp = icosphere_plan(0);
    mp.indices
}

} // verus!

verus! {

use crate::plan::{
    dests, fresh_at, lemma_arc_cuts_wf, lemma_wf_concat, lemma_wf_widen, plan_wf, slot_range,
    src_ok_at,
};

/// Dividing one face `d` times yields `4^d` triangles.
pub proof fn lemma_divide_idx_len(f: FaceM, d: nat, off: int)
    ensures
        divide_idx(f, d, off).len() == 3 * four_pow(d),
    decreases d,
{
    if d > 0 {
        let dm = (d - 1) as nat;
        let half = two_pow(dm) - 1;
        let new_off = off + 3 * half;
        let il = inner_unit(dm);
        lemma_divide_idx_len(sub_face(f, off, half, 0), dm, new_off);
        lemma_divide_idx_len(sub_face(f, off, half, 1), dm, new_off + il);
        lemma_divide_idx_len(sub_face(f, off, half, 2), dm, new_off + 2 * il);
        lemma_divide_idx_len(center_face(f, off, half), dm, new_off + 3 * il);
    }
}

/// The slots of an edge's span.
pub open spec fn edge_span(e: EdgeM) -> Set<int> {
    slot_range(e.off, e.off + e.len)
}

/// Every slot the face refers to, corners and edge spans alike, lies in `s`.
pub open spec fn face_defined(f: FaceM, s: Set<int>) -> bool {
    &&& (forall|p: int| 0 <= p < 3 ==> s.contains(#[trigger] f.v[p]))
    &&& (forall|p: int| 0 <= p < 3 ==> edge_span(#[trigger] f.e[p]).subset_of(s))
}

/// The face's edges all have the span length division `d` demands.
pub open spec fn face_lens(f: FaceM, d: nat) -> bool {
    &&& f.v.len() == 3
    &&& f.e.len() == 3
    &&& (forall|p: int| 0 <= p < 3 ==> (#[trigger] f.e[p]).len == two_pow(d) - 1)
}

} // verus!

verus! {

/// Once an edge's midpoint is cut, each half span stays inside the parent
/// span, and the midpoint itself is on it.
proof fn lemma_half_edge_span(e: EdgeM, half: int)
    requires
        e.len == 2 * half + 1,
        half >= 0,
    ensures
        half_edge(e, true).len == half,
        half_edge(e, false).len == half,
        edge_span(half_edge(e, true)).subset_of(edge_span(e)),
        edge_span(half_edge(e, false)).subset_of(edge_span(e)),
        edge_span(e).contains(e.off + half),
{
    assert(e.len / 2 == half);
    assert forall|x: int| edge_span(half_edge(e, true)).contains(x) implies edge_span(e).contains(
        x,
    ) by {}
    assert forall|x: int| edge_span(half_edge(e, false)).contains(x) implies edge_span(e).contains(
        x,
    ) by {}
}

/// An arc whose endpoints are already defined and whose span is fresh is a
/// well-formed plan over any base that holds everything defined so far.
proof fn lemma_arc_in_region(off: int, half: int, lo: int, hi: int, base: Set<int>)
    requires
        is_arc_len(half),
        half >= 0,
        base.contains(lo),
        base.contains(hi),
        slot_range(off, off + half).disjoint(base),
    ensures
        plan_wf(arc_cuts(off, half, lo, hi), base),
        dests(arc_cuts(off, half, lo, hi)) == slot_range(off, off + half),
        arc_cuts(off, half, lo, hi).len() == half,
{
    assert(!slot_range(off, off + half).contains(lo));
    assert(!slot_range(off, off + half).contains(hi));
    lemma_arc_cuts_wf(off, half, lo, hi);
    assert(set![lo, hi].subset_of(base));
    lemma_wf_widen(arc_cuts(off, half, lo, hi), set![lo, hi], base);
}

/// Dividing a face `d` more times writes exactly its interior block, each
/// slot exactly once, reads only slots already defined, and emits triangle
/// corners that are all defined or interior.
#[verifier::rlimit(100)]
#[verifier::spinoff_prover]
pub proof fn lemma_divide_wf(f: FaceM, d: nat, off: int, s: Set<int>)
    requires
        face_lens(f, d),
        face_defined(f, s),
        slot_range(off, off + inner_unit(d)).disjoint(s),
    ensures
        divide_cuts(f, d, off).len() == inner_unit(d),
        dests(divide_cuts(f, d, off)) == slot_range(off, off + inner_unit(d)),
        plan_wf(divide_cuts(f, d, off), s),
        forall|k: int|
            0 <= k < divide_idx(f, d, off).len() ==> s.contains(
                #[trigger] divide_idx(f, d, off)[k],
            ) || slot_range(off, off + inner_unit(d)).contains(divide_idx(f, d, off)[k]),
    decreases d,
{
    if d == 0 {
        assert(dests(divide_cuts(f, 0, off)) =~= slot_range(off, off));
        assert forall|k: int| 0 <= k < divide_idx(f, 0, off).len() implies s.contains(
            #[trigger] divide_idx(f, 0, off)[k],
        ) || slot_range(off, off + inner_unit(0)).contains(divide_idx(f, 0, off)[k]) by {
            assert(s.contains(f.v[0]) && s.contains(f.v[1]) && s.contains(f.v[2]));
            assert(divide_idx(f, 0, off)[k] == f.v[k]);
        }
    } else {
        let dm = (d - 1) as nat;
        lemma_two_pow_pos(dm);
        lemma_inner_unit_nonneg(dm);
        let half = two_pow(dm) - 1;
        let il = inner_unit(dm);
        let lenr = inner_unit(d);
        assert(lenr == 3 * half + 4 * il);
        let region = slot_range(off, off + lenr);
        assert(f.e[0].len == 2 * half + 1 && f.e[1].len == 2 * half + 1 && f.e[2].len == 2 * half
            + 1);
        lemma_half_edge_span(f.e[0], half);
        lemma_half_edge_span(f.e[1], half);
        lemma_half_edge_span(f.e[2], half);
        let m0 = f.e[0].off + half;
        let m1 = f.e[1].off + half;
        let m2 = f.e[2].off + half;
        assert(s.contains(m0) && s.contains(m1) && s.contains(m2)) by {
            assert(edge_span(f.e[0]).subset_of(s) && edge_span(f.e[1]).subset_of(s) && edge_span(
                f.e[2],
            ).subset_of(s));
        }
        assert(is_arc_len(half)) by {
            assert(half == two_pow(dm) - 1);
        }
        let a0 = arc_cuts(off, half, m0, m2);
        let a1 = arc_cuts(off + half, half, m1, m0);
        let a2 = arc_cuts(off + 2 * half, half, m2, m1);

        assert(slot_range(off, off + half).disjoint(s)) by {
            assert forall|x: int| slot_range(off, off + half).contains(x) implies !s.contains(
                x,
            ) by {
                assert(region.contains(x));
            }
        }
        lemma_arc_in_region(off, half, m0, m2, s);

        let s1 = s.union(dests(a0));
        assert(slot_range(off + half, off + 2 * half).disjoint(s1)) by {
            assert forall|x: int|
                slot_range(off + half, off + 2 * half).contains(x) implies !s1.contains(x) by {
                assert(region.contains(x));
                assert(!slot_range(off, off + half).contains(x));
            }
        }
        lemma_arc_in_region(off + half, half, m1, m0, s1);
        lemma_wf_concat(a0, a1, s);

        let s2 = s.union(dests(a0 + a1));
        assert(slot_range(off + 2 * half, off + 3 * half).disjoint(s2)) by {
            assert forall|x: int|
                slot_range(off + 2 * half, off + 3 * half).contains(x) implies !s2.contains(x) by {
                assert(region.contains(x));
                assert(!slot_range(off, off + half).contains(x));
                assert(!slot_range(off + half, off + 2 * half).contains(x));
            }
        }
        lemma_arc_in_region(off + 2 * half, half, m2, m1, s2);
        lemma_wf_concat(a0 + a1, a2, s);

        let arcs = a0 + a1 + a2;
        assert(dests(arcs) =~= slot_range(off, off + 3 * half));
        let sp = s.union(dests(arcs));

        let new_off = off + 3 * half;
        let f0 = sub_face(f, off, half, 0);
        let f1 = sub_face(f, off, half, 1);
        let f2 = sub_face(f, off, half, 2);
        let f3 = center_face(f, off, half);

        assert(face_lens(f0, dm) && face_lens(f1, dm) && face_lens(f2, dm) && face_lens(f3, dm))
            by {
            assert(f0.e[0].len == half && f0.e[1].len == half && f0.e[2].len == half);
            assert(f1.e[0].len == half && f1.e[1].len == half && f1.e[2].len == half);
            assert(f2.e[0].len == half && f2.e[1].len == half && f2.e[2].len == half);
            assert(f3.e[0].len == half && f3.e[1].len == half && f3.e[2].len == half);
        }

        // every slot a sub-face refers to is defined once the arcs are cut
        assert(edge_span(EdgeM { fwd: true, off: off, len: half }).subset_of(sp) && edge_span(
            EdgeM { fwd: true, off: off + half, len: half },
        ).subset_of(sp) && edge_span(EdgeM { fwd: true, off: off + 2 * half, len: half }).subset_of(
            sp,
        ) && edge_span(EdgeM { fwd: false, off: off, len: half }).subset_of(sp) && edge_span(
            EdgeM { fwd: false, off: off + half, len: half },
        ).subset_of(sp) && edge_span(
            EdgeM { fwd: false, off: off + 2 * half, len: half },
        ).subset_of(sp)) by {
            assert forall|x: int| off <= x < off + 3 * half implies sp.contains(x) by {
                assert(dests(arcs).contains(x));
            }
        }
        assert(face_defined(f0, sp)) by {
            assert(f0.v[0] == f.v[0] && f0.v[1] == m0 && f0.v[2] == m2);
            assert(f0.e[0] == half_edge(f.e[0], true) && f0.e[1] == (EdgeM {
                fwd: true,
                off: off,
                len: half,
            }) && f0.e[2] == half_edge(f.e[2], false));
            assert(edge_span(f0.e[0]).subset_of(s) && edge_span(f0.e[2]).subset_of(s));
        }
        assert(face_defined(f1, sp)) by {
            assert(f1.v[0] == f.v[1] && f1.v[1] == m1 && f1.v[2] == m0);
            assert(f1.e[0] == half_edge(f.e[1], true) && f1.e[1] == (EdgeM {
                fwd: true,
                off: off + half,
                len: half,
            }) && f1.e[2] == half_edge(f.e[0], false));
            assert(edge_span(f1.e[0]).subset_of(s) && edge_span(f1.e[2]).subset_of(s));
        }
        assert(face_defined(f2, sp)) by {
            assert(f2.v[0] == f.v[2] && f2.v[1] == m2 && f2.v[2] == m1);
            assert(f2.e[0] == half_edge(f.e[2], true) && f2.e[1] == (EdgeM {
                fwd: true,
                off: off + 2 * half,
                len: half,
            }) && f2.e[2] == half_edge(f.e[1], false));
            assert(edge_span(f2.e[0]).subset_of(s) && edge_span(f2.e[2]).subset_of(s));
        }
        assert(face_defined(f3, sp)) by {
            assert(f3.v[0] == m0 && f3.v[1] == m1 && f3.v[2] == m2);
            assert(f3.e[0] == (EdgeM { fwd: false, off: off + half, len: half }) && f3.e[1]
                == (EdgeM { fwd: false, off: off + 2 * half, len: half }) && f3.e[2] == (EdgeM {
                fwd: false,
                off: off,
                len: half,
            }));
        }

        let r0 = slot_range(new_off, new_off + il);
        let r1 = slot_range(new_off + il, new_off + 2 * il);
        let r2 = slot_range(new_off + 2 * il, new_off + 3 * il);
        let r3 = slot_range(new_off + 3 * il, new_off + 4 * il);

        assert(r0.disjoint(sp)) by {
            assert forall|x: int| r0.contains(x) implies !sp.contains(x) by {
                assert(region.contains(x));
            }
        }
        lemma_divide_wf(f0, dm, new_off, sp);
        let d0 = divide_cuts(f0, dm, new_off);
        lemma_wf_concat(arcs, d0, s);

        let sp1 = s.union(dests(arcs + d0));
        assert(face_defined(f1, sp1)) by {
            assert forall|x: int| sp.contains(x) implies sp1.contains(x) by {}
        }
        assert(r1.disjoint(sp1)) by {
            assert forall|x: int| r1.contains(x) implies !sp1.contains(x) by {
                assert(region.contains(x));
                assert(!r0.contains(x));
            }
        }
        lemma_divide_wf(f1, dm, new_off + il, sp1);
        let d1 = divide_cuts(f1, dm, new_off + il);
        lemma_wf_concat(arcs + d0, d1, s);

        let sp2 = s.union(dests(arcs + d0 + d1));
        assert(face_defined(f2, sp2)) by {
            assert forall|x: int| sp.contains(x) implies sp2.contains(x) by {}
        }
        assert(r2.disjoint(sp2)) by {
            assert forall|x: int| r2.contains(x) implies !sp2.contains(x) by {
                assert(region.contains(x));
                assert(!r0.contains(x) && !r1.contains(x));
            }
        }
        lemma_divide_wf(f2, dm, new_off + 2 * il, sp2);
        let d2 = divide_cuts(f2, dm, new_off + 2 * il);
        lemma_wf_concat(arcs + d0 + d1, d2, s);

        let sp3 = s.union(dests(arcs + d0 + d1 + d2));
        assert(face_defined(f3, sp3)) by {
            assert forall|x: int| sp.contains(x) implies sp3.contains(x) by {}
        }
        assert(r3.disjoint(sp3)) by {
            assert forall|x: int| r3.contains(x) implies !sp3.contains(x) by {
                assert(region.contains(x));
                assert(!r0.contains(x) && !r1.contains(x) && !r2.contains(x));
            }
        }
        lemma_divide_wf(f3, dm, new_off + 3 * il, sp3);
        let d3 = divide_cuts(f3, dm, new_off + 3 * il);
        lemma_wf_concat(arcs + d0 + d1 + d2, d3, s);

        assert(divide_cuts(f, d, off) == arcs + d0 + d1 + d2 + d3);
        assert(dests(divide_cuts(f, d, off)) =~= region);

        let i0 = divide_idx(f0, dm, new_off);
        let i1 = divide_idx(f1, dm, new_off + il);
        let i2 = divide_idx(f2, dm, new_off + 2 * il);
        let i3 = divide_idx(f3, dm, new_off + 3 * il);
        assert(divide_idx(f, d, off) == i0 + i1 + i2 + i3);
        assert forall|k: int| 0 <= k < divide_idx(f, d, off).len() implies s.contains(
            #[trigger] divide_idx(f, d, off)[k],
        ) || region.contains(divide_idx(f, d, off)[k]) by {
            let v = divide_idx(f, d, off)[k];
            assert forall|x: int| sp.contains(x) || sp1.contains(x) || sp2.contains(x)
                || sp3.contains(x) || r0.contains(x) || r1.contains(x) || r2.contains(x)
                || r3.contains(x) implies s.contains(x) || region.contains(x) by {}
            if k < i0.len() {
                assert(v == i0[k]);
            } else if k < i0.len() + i1.len() {
                assert(v == i1[k - i0.len()]);
            } else if k < i0.len() + i1.len() + i2.len() {
                assert(v == i2[k - i0.len() - i1.len()]);
            } else {
                assert(v == i3[k - i0.len() - i1.len() - i2.len()]);
            }
        }
    }
}

} // verus!
