use vstd::prelude::*;
use vstd::arithmetic::div_mod::{lemma_fundamental_div_mod, lemma_mod_bound};

verus! {

use crate::icosphere::{
    edge_cuts_upto, face_cuts_upto, face_fwd_cuts, face_idx_upto, fwd_cut, icosphere_cuts,
    icosphere_idx, index_count, inner_unit, lemma_divide_idx_len, lemma_divide_wf,
    lemma_inner_unit_nonneg, lemma_two_pow_pos, shared_unit,
    vertex_count, divide_cuts, divide_idx, face_defined, face_lens, edge_span,
};
use crate::mesh::{EdgeM, seed_face};
use crate::plan::{
    Cut, arc_cuts, dests, four_pow, is_arc_len, lemma_arc_cuts_wf, lemma_wf_concat,
    lemma_wf_widen, plan_wf, slot_range, two_pow,
};

/// The numbers (0..30) of the edge slots that face `j` owns and cuts.
pub open spec fn fwd_slots(j: int) -> Set<int> {
    if j % 4 == 0 {
        set![j / 2, j / 2 + 1]
    } else if j % 4 == 1 {
        set![j / 2 + 10]
    } else if j % 4 == 2 {
        set![j / 2 + 10]
    } else {
        set![j / 2 + 19, j / 2 + 20]
    }
}

/// The face that owns edge slot `t`: slots 0..10 belong to the top cap,
/// 10..20 to the belt, 20..30 to the bottom cap.
pub open spec fn slot_owner(t: int) -> int {
    if t < 10 {
        4 * (t / 2)
    } else if t < 20 {
        if t % 2 == 0 {
            4 * ((t - 10) / 2) + 1
        } else {
            4 * ((t - 11) / 2) + 2
        }
    } else {
        4 * ((t - 20) / 2) + 3
    }
}

proof fn lemma_fwd_slots_owner(j: int)
    requires
        0 <= j < 20,
    ensures
        forall|t: int|
            0 <= t < 30 ==> (#[trigger] fwd_slots(j).contains(t) <==> slot_owner(t) == j),
        forall|t: int| fwd_slots(j).contains(t) ==> 0 <= t < 30,
{
    assert forall|t: int| fwd_slots(j).contains(t) implies 0 <= t < 30 by {}
    assert forall|t: int| 0 <= t < 30 implies (#[trigger] fwd_slots(j).contains(t) <==> slot_owner(
        t,
    ) == j) by {
        if t < 10 {
            assert(t == 2 * (t / 2) || t == 2 * (t / 2) + 1);
        } else if t < 20 {
            if t % 2 == 0 {
                assert(t == 2 * ((t - 10) / 2) + 10);
            } else {
                assert(t == 2 * ((t - 11) / 2) + 11);
            }
        } else {
            assert(t == 2 * ((t - 20) / 2) + 20 || t == 2 * ((t - 20) / 2) + 21);
        }
    }
}

/// Slots owned by the first `n` faces.
pub open spec fn slots_upto(n: int) -> Set<int>
    decreases n,
{
    if n <= 0 {
        Set::empty()
    } else {
        slots_upto(n - 1).union(fwd_slots(n - 1))
    }
}

proof fn lemma_slots_upto_owner(n: int)
    requires
        0 <= n <= 20,
    ensures
        slots_upto(n) == Set::new(|t: int| 0 <= t < 30 && slot_owner(t) < n),
    decreases n,
{
    if n == 0 {
        assert(slots_upto(0) =~= Set::new(|t: int| 0 <= t < 30 && slot_owner(t) < 0)) by {
            assert forall|t: int| 0 <= t < 30 implies slot_owner(t) >= 0 by {}
        }
    } else {
        lemma_slots_upto_owner(n - 1);
        lemma_fwd_slots_owner(n - 1);
        assert(slots_upto(n) =~= Set::new(|t: int| 0 <= t < 30 && slot_owner(t) < n));
    }
}

/// Each slot under each of the first 20 faces; all 30 slots are covered.
proof fn lemma_slots_upto_full()
    ensures
        slots_upto(20) == Set::new(|t: int| 0 <= t < 30),
{
    lemma_slots_upto_owner(20);
    assert forall|t: int| 0 <= t < 30 implies slot_owner(t) < 20 by {}
    assert(slots_upto(20) =~= Set::new(|t: int| 0 <= t < 30));
}

/// The buffer span of edge slot `t`.
pub open spec fn slot_span(t: int, so: int, u: int) -> Set<int> {
    slot_range(so + t * u, so + t * u + u)
}

/// The union of the spans of a set of slots.
pub open spec fn spans_of(ss: Set<int>, so: int, u: int) -> Set<int> {
    Set::new(|x: int| exists|t: int| ss.contains(t) && #[trigger] slot_span(t, so, u).contains(x))
}

proof fn lemma_mul_mono(a: int, b: int, c: int)
    by (nonlinear_arith)
    requires
        a <= b,
        0 <= c,
    ensures
        a * c <= b * c,
{
}

/// Distinct slots have disjoint spans.
proof fn lemma_slot_spans_disjoint(t1: int, t2: int, so: int, u: int)
    requires
        t1 != t2,
        u >= 0,
    ensures
        slot_span(t1, so, u).disjoint(slot_span(t2, so, u)),
{
    if t1 < t2 {
        lemma_mul_mono(t1 + 1, t2, u);
        assert(t1 * u + u == (t1 + 1) * u) by (nonlinear_arith);
    } else {
        lemma_mul_mono(t2 + 1, t1, u);
        assert(t2 * u + u == (t2 + 1) * u) by (nonlinear_arith);
    }
    assert forall|x: int|
        slot_span(t1, so, u).contains(x) implies !slot_span(t2, so, u).contains(x) by {}
}

proof fn lemma_spans_of_union(a: Set<int>, b: Set<int>, so: int, u: int)
    ensures
        spans_of(a.union(b), so, u) == spans_of(a, so, u).union(spans_of(b, so, u)),
{
    assert(spans_of(a.union(b), so, u) =~= spans_of(a, so, u).union(spans_of(b, so, u))) by {
        assert forall|x: int| spans_of(a.union(b), so, u).contains(x) implies spans_of(
            a,
            so,
            u,
        ).union(spans_of(b, so, u)).contains(x) by {
            let t = choose|t: int|
                a.union(b).contains(t) && #[trigger] slot_span(t, so, u).contains(x);
            assert(a.contains(t) || b.contains(t));
        }
        assert forall|x: int|
            spans_of(a, so, u).union(spans_of(b, so, u)).contains(x) implies spans_of(
            a.union(b),
            so,
            u,
        ).contains(x) by {
            if spans_of(a, so, u).contains(x) {
                let t = choose|t: int| a.contains(t) && #[trigger] slot_span(t, so, u).contains(x);
                assert(a.union(b).contains(t) && slot_span(t, so, u).contains(x));
            } else {
                let t = choose|t: int| b.contains(t) && #[trigger] slot_span(t, so, u).contains(x);
                assert(a.union(b).contains(t) && slot_span(t, so, u).contains(x));
            }
        }
    }
}

proof fn lemma_spans_of_single(t: int, so: int, u: int)
    ensures
        spans_of(set![t], so, u) == slot_span(t, so, u),
{
    assert(spans_of(set![t], so, u) =~= slot_span(t, so, u)) by {
        assert forall|x: int| slot_span(t, so, u).contains(x) implies spans_of(
            set![t],
            so,
            u,
        ).contains(x) by {
            assert(set![t].contains(t) && slot_span(t, so, u).contains(x));
        }
    }
}

} // verus!

verus! {

/// How many of its three edges face `j` owns.
pub open spec fn fwd_count(j: int) -> int {
    if j % 4 == 1 || j % 4 == 2 {
        1
    } else {
        2
    }
}

/// Edge spans owned by the first `n` faces, counted.
pub open spec fn fwd_total(n: int) -> int
    decreases n,
{
    if n <= 0 {
        0
    } else {
        fwd_total(n - 1) + fwd_count(n - 1)
    }
}

/// Cutting one owned edge span is well formed over the seeds and everything
/// cut before it, and writes exactly its slot's span.
proof fn lemma_one_fwd_arc(t: int, lo: int, hi: int, u: int, d: nat, prev: Set<int>)
    requires
        u == two_pow(d) - 1,
        0 <= t < 30,
        !prev.contains(t),
        0 <= lo < 12,
        0 <= hi < 12,
    ensures
        plan_wf(
            arc_cuts(12 + t * u, u, lo, hi),
            slot_range(0, 12).union(spans_of(prev, 12, u)),
        ),
        dests(arc_cuts(12 + t * u, u, lo, hi)) == slot_span(t, 12, u),
        arc_cuts(12 + t * u, u, lo, hi).len() == u,
{
    lemma_two_pow_pos(d);
    lemma_mul_mono(0, t, u);
    let off = 12 + t * u;
    let base = slot_range(0, 12).union(spans_of(prev, 12, u));
    assert(is_arc_len(u)) by {
        assert(u == two_pow(d) - 1);
    }
    assert(base.contains(lo) && base.contains(hi));
    assert(slot_range(off, off + u).disjoint(base)) by {
        assert forall|x: int| slot_range(off, off + u).contains(x) implies !base.contains(x) by {
            assert(x >= 12);
            if spans_of(prev, 12, u).contains(x) {
                let t2 = choose|t2: int|
                    prev.contains(t2) && #[trigger] slot_span(t2, 12, u).contains(x);
                lemma_slot_spans_disjoint(t, t2, 12, u);
                assert(slot_span(t, 12, u).contains(x));
            }
        }
    }
    lemma_arc_cuts_wf(off, u, lo, hi);
    lemma_wf_widen(arc_cuts(off, u, lo, hi), set![lo, hi], base);
    assert(dests(arc_cuts(off, u, lo, hi)) =~= slot_span(t, 12, u));
}

/// The cuts one face makes on the spans it owns are well formed over the
/// seeds and the spans of all faces before it, and write exactly the spans
/// of the face's own slots.
#[verifier::rlimit(100)]
#[verifier::spinoff_prover]
proof fn lemma_face_fwd_cuts_wf(j: int, u: int, d: nat)
    requires
        0 <= j < 20,
        u == two_pow(d) - 1,
    ensures
        plan_wf(
            face_fwd_cuts(seed_face(j, 12, u)),
            slot_range(0, 12).union(spans_of(slots_upto(j), 12, u)),
        ),
        dests(face_fwd_cuts(seed_face(j, 12, u))) == spans_of(fwd_slots(j), 12, u),
        face_fwd_cuts(seed_face(j, 12, u)).len() == fwd_count(j) * u,
{
    lemma_two_pow_pos(d);
    lemma_slots_upto_owner(j);
    lemma_fwd_slots_owner(j);
    let fm = seed_face(j, 12, u);
    let prev = slots_upto(j);
    let base = slot_range(0, 12).union(spans_of(prev, 12, u));
    let q0 = fwd_cut(fm, 0);
    let q1 = fwd_cut(fm, 1);
    let q2 = fwd_cut(fm, 2);
    let j2 = j / 2;
    let j4 = j / 4;
    assert(0 <= fm.v[0] < 12 && 0 <= fm.v[1] < 12 && 0 <= fm.v[2] < 12);
    if j % 4 == 0 || j % 4 == 3 {
        let t0 = if j % 4 == 0 {
            j2
        } else {
            j2 + 19
        };
        let t1 = t0 + 1;
        assert(fwd_slots(j).contains(t0) && fwd_slots(j).contains(t1));
        assert(!prev.contains(t0) && !prev.contains(t1));
        assert(fm.e[0].fwd && fm.e[1].fwd && !fm.e[2].fwd);
        assert(fm.e[0].off == 12 + t0 * u && fm.e[0].len == u);
        assert(fm.e[1].off == 12 + t1 * u && fm.e[1].len == u);
        assert(q0 == arc_cuts(12 + t0 * u, u, fm.v[0], fm.v[1]));
        assert(q1 == arc_cuts(12 + t1 * u, u, fm.v[1], fm.v[2]));
        lemma_one_fwd_arc(t0, fm.v[0], fm.v[1], u, d, prev);
        let prev1 = prev.union(set![t0]);
        lemma_one_fwd_arc(t1, fm.v[1], fm.v[2], u, d, prev1);
        lemma_spans_of_union(prev, set![t0], 12, u);
        lemma_spans_of_single(t0, 12, u);
        assert(slot_range(0, 12).union(spans_of(prev1, 12, u)) =~= base.union(dests(q0)));
        lemma_wf_concat(q0, q1, base);
        assert(q0 + q1 + q2 =~= q0 + q1);
        assert(plan_wf(q0 + q1 + q2, base));
        assert(dests(q0 + q1 + q2) =~= spans_of(fwd_slots(j), 12, u)) by {
            lemma_spans_of_single(t1, 12, u);
            assert(dests(q0 + q1) == dests(q0).union(dests(q1)));
            assert forall|x: int|
                spans_of(fwd_slots(j), 12, u).contains(x) implies dests(q0 + q1 + q2).contains(
                x,
            ) by {
                let t = choose|t: int|
                    fwd_slots(j).contains(t) && #[trigger] slot_span(t, 12, u).contains(x);
                assert(t == t0 || t == t1);
            }
            assert forall|x: int|
                dests(q0 + q1 + q2).contains(x) implies spans_of(fwd_slots(j), 12, u).contains(
                x,
            ) by {
                if slot_span(t0, 12, u).contains(x) {
                    assert(fwd_slots(j).contains(t0) && slot_span(t0, 12, u).contains(x));
                } else {
                    assert(fwd_slots(j).contains(t1) && slot_span(t1, 12, u).contains(x));
                }
            }
        }
        assert((q0 + q1 + q2).len() == 2 * u);
    } else {
        let t0 = j2 + 10;
        assert(fwd_slots(j).contains(t0));
        assert(!prev.contains(t0));
        assert(fm.e[0].fwd && !fm.e[1].fwd && !fm.e[2].fwd);
        assert(fm.e[0].off == 12 + t0 * u && fm.e[0].len == u);
        assert(q0 == arc_cuts(12 + t0 * u, u, fm.v[0], fm.v[1]));
        lemma_one_fwd_arc(t0, fm.v[0], fm.v[1], u, d, prev);
        assert(q0 + q1 + q2 =~= q0);
        assert(plan_wf(q0 + q1 + q2, base));
        assert(dests(q0 + q1 + q2) =~= spans_of(fwd_slots(j), 12, u)) by {
            lemma_spans_of_single(t0, 12, u);
            assert forall|x: int|
                spans_of(fwd_slots(j), 12, u).contains(x) implies dests(q0 + q1 + q2).contains(
                x,
            ) by {
                let t = choose|t: int|
                    fwd_slots(j).contains(t) && #[trigger] slot_span(t, 12, u).contains(x);
                assert(t == t0);
            }
            assert forall|x: int|
                dests(q0 + q1 + q2).contains(x) implies spans_of(fwd_slots(j), 12, u).contains(
                x,
            ) by {
                assert(fwd_slots(j).contains(t0) && slot_span(t0, 12, u).contains(x));
            }
        }
        assert((q0 + q1 + q2).len() == 1 * u);
    }
}

/// Cutting the owned spans of the first `n` faces is well formed over the 12
/// seeds alone, and writes exactly the spans of their slots.
proof fn lemma_edge_cuts_wf(n: int, u: int, d: nat)
    requires
        0 <= n <= 20,
        u == two_pow(d) - 1,
    ensures
        plan_wf(edge_cuts_upto(n, 12, u), slot_range(0, 12)),
        dests(edge_cuts_upto(n, 12, u)) == spans_of(slots_upto(n), 12, u),
        edge_cuts_upto(n, 12, u).len() == fwd_total(n) * u,
    decreases n,
{
    lemma_two_pow_pos(d);
    if n == 0 {
        assert(dests(edge_cuts_upto(0, 12, u)) =~= spans_of(slots_upto(0), 12, u));
    } else {
        lemma_edge_cuts_wf(n - 1, u, d);
        lemma_face_fwd_cuts_wf(n - 1, u, d);
        let p = edge_cuts_upto(n - 1, 12, u);
        let q = face_fwd_cuts(seed_face(n - 1, 12, u));
        let seeds = slot_range(0, 12);
        assert(seeds.union(dests(p)) =~= seeds.union(spans_of(slots_upto(n - 1), 12, u)));
        lemma_wf_concat(p, q, seeds);
        lemma_spans_of_union(slots_upto(n - 1), fwd_slots(n - 1), 12, u);
        assert(dests(edge_cuts_upto(n, 12, u)) =~= spans_of(slots_upto(n), 12, u));
        assert(fwd_total(n) * u == fwd_total(n - 1) * u + fwd_count(n - 1) * u)
            by (nonlinear_arith)
            requires
                fwd_total(n) == fwd_total(n - 1) + fwd_count(n - 1),
        ;
    }
}

} // verus!

verus! {

/// The spans of all 30 slots tile the shared region exactly.
proof fn lemma_spans_full(u: int, d: nat)
    requires
        u == two_pow(d) - 1,
    ensures
        spans_of(Set::new(|t: int| 0 <= t < 30), 12, u) == slot_range(12, 12 + 30 * u),
{
    lemma_two_pow_pos(d);
    let full = Set::new(|t: int| 0 <= t < 30);
    assert forall|x: int| spans_of(full, 12, u).contains(x) implies slot_range(
        12,
        12 + 30 * u,
    ).contains(x) by {
        let t = choose|t: int| full.contains(t) && #[trigger] slot_span(t, 12, u).contains(x);
        lemma_mul_mono(0, t, u);
        lemma_mul_mono(t + 1, 30, u);
        assert(t * u + u == (t + 1) * u) by (nonlinear_arith);
    }
    assert forall|x: int| slot_range(12, 12 + 30 * u).contains(x) implies spans_of(
        full,
        12,
        u,
    ).contains(x) by {
        assert(u >= 1) by {
            if u == 0 {
                lemma_mul_mono(30, 30, u);
                assert(30 * u == 0) by (nonlinear_arith)
                    requires
                        u == 0,
                ;
            }
        }
        let t = (x - 12) / u;
        lemma_fundamental_div_mod(x - 12, u);
        lemma_mod_bound(x - 12, u);
        assert(x - 12 == u * t + (x - 12) % u);
        assert(0 <= t) by {
            if t <= -1 {
                lemma_mul_mono(t, -1, u);
            }
        }
        assert(t < 30) by {
            if t >= 30 {
                lemma_mul_mono(30, t, u);
            }
        }
        assert(slot_span(t, 12, u).contains(x));
        assert(full.contains(t) && slot_span(t, 12, u).contains(x));
    }
    assert(spans_of(full, 12, u) =~= slot_range(12, 12 + 30 * u));
}

/// Block `m` of 30 blocks of `u` slots each stays inside the shared region.
proof fn lemma_span_in_region(m: int, u: int)
    requires
        0 <= m < 30,
        0 <= u,
    ensures
        0 <= m * u,
        m * u + u <= 30 * u,
{
    lemma_mul_mono(0, m, u);
    lemma_mul_mono(m + 1, 30, u);
    assert(m * u + u == (m + 1) * u) by (nonlinear_arith);
}

/// Dividing the first `n` faces is well formed over the seeds and the fully
/// cut shared region, writes exactly the first `n` interior blocks, and
/// emits only indices of defined vertices.
#[verifier::rlimit(100)]
#[verifier::spinoff_prover]
proof fn lemma_face_cuts_wf(n: int, d: nat)
    requires
        0 <= n <= 20,
    ensures
        plan_wf(
            face_cuts_upto(n, d, 12, shared_unit(d), 12 + 30 * shared_unit(d)),
            slot_range(0, 12 + 30 * shared_unit(d)),
        ),
        dests(face_cuts_upto(n, d, 12, shared_unit(d), 12 + 30 * shared_unit(d))) == slot_range(
            12 + 30 * shared_unit(d),
            12 + 30 * shared_unit(d) + n * inner_unit(d),
        ),
        face_cuts_upto(n, d, 12, shared_unit(d), 12 + 30 * shared_unit(d)).len() == n * inner_unit(
            d,
        ),
        face_idx_upto(n, d, 12, shared_unit(d), 12 + 30 * shared_unit(d)).len() == n * (3
            * four_pow(d)),
        forall|k: int|
            0 <= k < face_idx_upto(n, d, 12, shared_unit(d), 12 + 30 * shared_unit(d)).len()
                ==> 0 <= #[trigger] face_idx_upto(
                n,
                d,
                12,
                shared_unit(d),
                12 + 30 * shared_unit(d),
            )[k] < 12 + 30 * shared_unit(d) + n * inner_unit(d),
    decreases n,
{
    lemma_two_pow_pos(d);
    lemma_inner_unit_nonneg(d);
    let u = shared_unit(d);
    let io = 12 + 30 * u;
    let il = inner_unit(d);
    if n == 0 {
        assert(dests(face_cuts_upto(0, d, 12, u, io)) =~= slot_range(io, io));
        assert(0 * il == 0) by (nonlinear_arith);
        assert(0 * (3 * four_pow(d)) == 0) by (nonlinear_arith);
    } else {
        lemma_face_cuts_wf(n - 1, d);
        let j = n - 1;
        let fm = seed_face(j, 12, u);
        let p = face_cuts_upto(j, d, 12, u, io);
        let jl = j * il;
        let nl = n * il;
        assert(jl + il == nl) by (nonlinear_arith)
            requires
                jl == j * il,
                nl == n * il,
                n == j + 1,
        ;
        lemma_mul_mono(0, j, il);
        let sj = slot_range(0, io + jl);
        let off_j = io + jl;
        let j2 = j / 2;
        lemma_span_in_region(j2, u);
        lemma_span_in_region(j2 + 1, u);
        lemma_span_in_region((j2 + 2) % 10, u);
        lemma_span_in_region(j2 + 10, u);
        lemma_span_in_region(j2 + 11, u);
        lemma_span_in_region(j2 + 19, u);
        lemma_span_in_region(j2 + 20, u);
        lemma_span_in_region((j2 + 1) % 10 + 10, u);
        lemma_span_in_region((j2 + 2) % 10 + 20, u);
        assert(face_lens(fm, d)) by {
            assert(fm.e[0].len == u && fm.e[1].len == u && fm.e[2].len == u);
        }
        assert(face_defined(fm, sj)) by {
            assert(0 <= fm.v[0] < 12 && 0 <= fm.v[1] < 12 && 0 <= fm.v[2] < 12);
            assert forall|pp: int| 0 <= pp < 3 implies edge_span(#[trigger] fm.e[pp]).subset_of(
                sj,
            ) by {
                assert(12 <= fm.e[pp].off && fm.e[pp].off + fm.e[pp].len <= io);
                assert forall|x: int| edge_span(fm.e[pp]).contains(x) implies sj.contains(x) by {}
            }
        }
        assert(slot_range(off_j, off_j + il).disjoint(sj));
        lemma_divide_wf(fm, d, off_j, sj);
        let q = divide_cuts(fm, d, off_j);
        assert(slot_range(0, io).union(dests(p)) =~= sj);
        lemma_wf_concat(p, q, slot_range(0, io));
        assert(dests(p + q) =~= slot_range(io, io + nl));
        assert((p + q).len() == nl);
        lemma_divide_idx_len(fm, d, off_j);
        let pi = face_idx_upto(j, d, 12, u, io);
        let qi = divide_idx(fm, d, off_j);
        assert((n - 1) * (3 * four_pow(d)) + 3 * four_pow(d) == n * (3 * four_pow(d)))
            by (nonlinear_arith);
        assert forall|k: int|
            0 <= k < face_idx_upto(n, d, 12, u, io).len() implies 0 <= #[trigger] face_idx_upto(
            n,
            d,
            12,
            u,
            io,
        )[k] < io + nl by {
            let v = face_idx_upto(n, d, 12, u, io)[k];
            if k < pi.len() {
                assert(v == pi[k]);
                assert(0 <= v < io + jl);
            } else {
                assert(v == qi[k - pi.len()]);
                assert(sj.contains(v) || slot_range(off_j, off_j + il).contains(v));
            }
        }
    }
}

/// The complete icosphere plan is well formed: starting from the 12 seed
/// vertices it writes every other slot of the vertex buffer exactly once,
/// each bisection reads only slots already defined, and the index buffer
/// holds `60 * 4^d` indices of defined vertices.
pub proof fn lemma_icosphere_plan_wf(d: nat)
    ensures
        icosphere_cuts(d).len() == vertex_count(d) - 12,
        dests(icosphere_cuts(d)) == slot_range(12, vertex_count(d)),
        plan_wf(icosphere_cuts(d), slot_range(0, 12)),
        icosphere_idx(d).len() == index_count(d),
        forall|k: int|
            0 <= k < icosphere_idx(d).len() ==> 0 <= #[trigger] icosphere_idx(d)[k] < vertex_count(
                d,
            ),
{
    let u = shared_unit(d);
    let io = 12 + 30 * u;
    let il = inner_unit(d);
    lemma_two_pow_pos(d);
    lemma_inner_unit_nonneg(d);
    lemma_edge_cuts_wf(20, u, d);
    lemma_slots_upto_full();
    lemma_spans_full(u, d);
    let e = edge_cuts_upto(20, 12, u);
    let q = face_cuts_upto(20, d, 12, u, io);
    assert(dests(e) == slot_range(12, io));
    lemma_face_cuts_wf(20, d);
    assert(slot_range(0, 12).union(dests(e)) =~= slot_range(0, io));
    lemma_wf_concat(e, q, slot_range(0, 12));
    assert(vertex_count(d) == io + 20 * il);
    assert(dests(e + q) =~= slot_range(12, vertex_count(d)));
    assert(fwd_total(20) == 30) by {
        reveal_with_fuel(fwd_total, 21);
    }
    assert(e.len() == 30 * u);
    assert(20 * (3 * four_pow(d)) == 60 * four_pow(d)) by (nonlinear_arith);
}

/// At division 0 the plan performs no cuts at all: the icosahedron's 12
/// vertices already stand, and only the fixed index table is emitted.
pub proof fn lemma_icosphere_plan_zero()
    ensures
        icosphere_cuts(0) == Seq::<Cut>::empty(),
        icosphere_idx(0).len() == 60,
{
    lemma_icosphere_plan_wf(0);
    assert(icosphere_cuts(0) =~= Seq::<Cut>::empty());
    assert(index_count(0) == 60);
}

} // verus!

verus! {

/// Face `j2` owns, at position `p2`, the very edge span that face `j` reads
/// in reverse at position `p`: same slot, same length, and the same two
/// corner vertices traversed in the opposite direction.
pub open spec fn mirrored_edge(j: int, p: int, j2: int, p2: int, so: int, u: int) -> bool {
    let f = seed_face(j, so, u);
    let f2 = seed_face(j2, so, u);
    &&& 0 <= j2 < 20
    &&& 0 <= p2 < 3
    &&& f2.e[p2].fwd
    &&& f2.e[p2].off == f.e[p].off
    &&& f2.e[p2].len == f.e[p].len
    &&& f2.v[p2] == f.v[(p + 1) % 3]
    &&& f2.v[(p2 + 1) % 3] == f.v[p]
}

/// Shared-edge consistency: every edge span a face reads in reverse is
/// written by exactly one other face, forward, between the same two corner
/// vertices.  Both faces therefore walk the same subdivision points along
/// their common edge, so the mesh has no seams.
#[verifier::rlimit(100)]
#[verifier::spinoff_prover]
pub proof fn lemma_shared_edges_consistent(j: int, p: int, so: int, u: int)
    requires
        0 <= j < 20,
        0 <= p < 3,
        !seed_face(j, so, u).e[p].fwd,
    ensures
        exists|j2: int, p2: int| mirrored_edge(j, p, j2, p2, so, u),
{
    let m = j / 4;
    if j % 4 == 0 {
        if m < 4 {
            assert(mirrored_edge(j, p, j + 4, 0, so, u));
        } else {
            assert(mirrored_edge(j, p, 0, 0, so, u));
        }
    } else if j % 4 == 1 {
        if p == 1 {
            assert(mirrored_edge(j, p, j + 1, 0, so, u));
        } else {
            assert(mirrored_edge(j, p, j - 1, 1, so, u));
        }
    } else if j % 4 == 2 {
        if p == 1 {
            assert(mirrored_edge(j, p, j + 1, 0, so, u));
        } else {
            if m < 4 {
                assert(mirrored_edge(j, p, j + 3, 0, so, u));
            } else {
                assert(mirrored_edge(j, p, 1, 0, so, u));
            }
        }
    } else {
        if m < 4 {
            assert(mirrored_edge(j, p, j + 4, 1, so, u));
        } else {
            assert(mirrored_edge(j, p, 3, 1, so, u));
        }
    }
}

} // verus!

verus! {

/// The icosahedron's index buffer, spelled out: the corner triples of the 20
/// faces in face order, CCW.
#[verifier::rlimit(100)]
#[verifier::spinoff_prover]
pub proof fn lemma_icosahedron_index_table()
    ensures
        icosphere_idx(0) == seq![
            0int, 1, 2, 1, 6, 2, 2, 6, 7, 7, 6, 11, 0, 2, 3, 2, 7, 3, 3, 7, 8, 8, 7, 11, 0, 3, 4,
            3, 8, 4, 4, 8, 9, 9, 8, 11, 0, 4, 5, 4, 9, 5, 5, 9, 10, 10, 9, 11, 0, 5, 1, 5, 10, 1,
            1, 10, 6, 6, 10, 11,
        ],
{
    reveal_with_fuel(face_idx_upto, 21);
    assert(icosphere_idx(0) =~= seq![
        0int, 1, 2, 1, 6, 2, 2, 6, 7, 7, 6, 11, 0, 2, 3, 2, 7, 3, 3, 7, 8, 8, 7, 11, 0, 3, 4, 3,
        8, 4, 4, 8, 9, 9, 8, 11, 0, 4, 5, 4, 9, 5, 5, 9, 10, 10, 9, 11, 0, 5, 1, 5, 10, 1, 1, 10,
        6, 6, 10, 11,
    ]);
}

} // verus!
