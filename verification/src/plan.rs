use vstd::prelude::*;

verus! {

/// `2^k`, the arc lengths the subdivision works with.
pub open spec fn two_pow(k: nat) -> nat
    decreases k,
{
    if k == 0 {
        1
    } else {
        2 * two_pow((k - 1) as nat)
    }
}

/// `4^k`, the growth rate of faces and vertices per division.
pub open spec fn four_pow(k: nat) -> nat
    decreases k,
{
    if k == 0 {
        1
    } else {
        4 * four_pow((k - 1) as nat)
    }
}

/// One step of a subdivision plan: the vertex at slot `dest` becomes the
/// normalized midpoint of the vertices at slots `start` and `end`.  The
/// order of `start` and `end` is meaningful: interpolated vertices inherit
/// the attributes of the `start` operand.
#[derive(Debug, Clone, Copy)]
pub struct Bisection {
    pub dest: usize,
    pub start: usize,
    pub end: usize,
}

/// The mathematical image of one `Bisection`, over unbounded integers.
pub struct Cut {
    pub dest: int,
    pub lo: int,
    pub hi: int,
}

pub open spec fn cut_of(b: Bisection) -> Cut {
    Cut { dest: b.dest as int, lo: b.start as int, hi: b.end as int }
}

pub open spec fn cuts_of(s: Seq<Bisection>) -> Seq<Cut> {
    s.map_values(|b: Bisection| cut_of(b))
}

/// The cuts performed when a span of `len` fresh slots starting at `off` is
/// recursively bisected between the already-known endpoints `lo` and `hi`:
/// the middle slot is written first, then each half is cut the same way.
pub open spec fn arc_cuts(off: int, len: int, lo: int, hi: int) -> Seq<Cut>
    decreases len,
{
    if len <= 0 {
        Seq::empty()
    } else {
        let half = len / 2;
        seq![Cut { dest: off + half, lo: lo, hi: hi }] + arc_cuts(off, half, lo, off + half)
            + arc_cuts(off + half + 1, half, off + half, hi)
    }
}

/// Spans that can be bisected evenly: one less than a power of two.
pub open spec fn is_arc_len(len: int) -> bool {
    exists|k: nat| len == two_pow(k) - 1
}

pub proof fn lemma_arc_len_half(len: int)
    requires
        is_arc_len(len),
        len > 0,
    ensures
        len % 2 == 1,
        len / 2 == (len - 1) / 2,
        is_arc_len(len / 2),
        2 * (len / 2) + 1 == len,
{
    let k = choose|k: nat| len == two_pow(k) - 1;
    assert(k > 0) by {
        if k == 0 {
            assert(two_pow(0) == 1);
        }
    }
    assert(two_pow(k) == 2 * two_pow((k - 1) as nat));
    assert(len == 2 * two_pow((k - 1) as nat) - 1);
    assert(len / 2 == two_pow((k - 1) as nat) - 1);
    assert(is_arc_len(len / 2)) by {
        assert(len / 2 == two_pow((k - 1) as nat) - 1);
    }
}

pub proof fn lemma_cuts_of_push(s: Seq<Bisection>, b: Bisection)
    ensures
        cuts_of(s.push(b)) == cuts_of(s) + seq![cut_of(b)],
{
    assert(cuts_of(s.push(b)) =~= cuts_of(s) + seq![cut_of(b)]);
}

/// The mathematical image of an index buffer.
pub open spec fn idx_of(s: Seq<u32>) -> Seq<int> {
    s.map_values(|x: u32| x as int)
}

pub proof fn lemma_idx_of_push(s: Seq<u32>, x: u32)
    ensures
        idx_of(s.push(x)) == idx_of(s) + seq![x as int],
{
    assert(idx_of(s.push(x)) =~= idx_of(s) + seq![x as int]);
}

/// Appends to `plan` the bisection steps that cut the arc between the
/// vertices at `start` and `end` into `len + 1` equal pieces, filling the
/// `len` slots beginning at `off`.
pub fn push_arc_cuts(plan: &mut Vec<Bisection>, off: usize, len: usize, start: usize, end: usize)
    requires
        is_arc_len(len as int),
        off + len <= usize::MAX,
    ensures
        cuts_of(final(plan)@) == cuts_of(old(plan)@) + arc_cuts(
            off as int,
            len as int,
            start as int,
            end as int,
        ),
    decreases len,
{
    if len == 0 {
        assert(cuts_of(plan@) =~= cuts_of(plan@) + arc_cuts(
            off as int,
            len as int,
            start as int,
            end as int,
        ));
        return ;
    }
    proof {
        lemma_arc_len_half(len as int);
    }
    let half = len / 2;
    let ghost pre = plan@;
    let mid = off + half;
    plan.push(Bisection { dest: mid, start: start, end: end });
    proof {
        lemma_cuts_of_push(pre, Bisection { dest: mid, start: start, end: end });
    }
    push_arc_cuts(plan, off, half, start, mid);
    push_arc_cuts(plan, mid + 1, half, mid, end);
    assert(cuts_of(plan@) =~= cuts_of(pre) + arc_cuts(
        off as int,
        len as int,
        start as int,
        end as int,
    ));
}

} // verus!

verus! {

/// The set of slots in `lo..hi`.
pub open spec fn slot_range(lo: int, hi: int) -> Set<int> {
    Set::new(|x: int| lo <= x < hi)
}

/// The set of slots a plan writes.
pub open spec fn dests(p: Seq<Cut>) -> Set<int> {
    Set::new(|x: int| exists|i: int| 0 <= i < p.len() && p[i].dest == x)
}

/// Both operands of the `k`-th cut are defined when it runs: each is either
/// in `base` (defined before the plan starts) or written by an earlier cut.
pub open spec fn src_ok_at(p: Seq<Cut>, base: Set<int>, k: int) -> bool {
    &&& (base.contains(p[k].lo) || exists|j: int| 0 <= j < k && p[j].dest == p[k].lo)
    &&& (base.contains(p[k].hi) || exists|j: int| 0 <= j < k && p[j].dest == p[k].hi)
}

/// The `k`-th cut writes a slot that neither `base` nor any earlier cut holds.
pub open spec fn fresh_at(p: Seq<Cut>, base: Set<int>, k: int) -> bool {
    &&& !base.contains(p[k].dest)
    &&& forall|j: int| 0 <= j < k ==> (#[trigger] p[j].dest) != p[k].dest
}

/// A plan is well-formed over `base`: cuts only read defined slots, and no
/// slot is ever written twice.
pub open spec fn plan_wf(p: Seq<Cut>, base: Set<int>) -> bool {
    &&& forall|k: int| 0 <= k < p.len() ==> #[trigger] src_ok_at(p, base, k)
    &&& forall|k: int| 0 <= k < p.len() ==> #[trigger] fresh_at(p, base, k)
}

/// Well-formedness survives widening the base with slots the plan never writes.
pub proof fn lemma_wf_widen(p: Seq<Cut>, base: Set<int>, base2: Set<int>)
    requires
        plan_wf(p, base),
        base.subset_of(base2),
        dests(p).disjoint(base2),
    ensures
        plan_wf(p, base2),
{
    assert forall|k: int| 0 <= k < p.len() implies #[trigger] src_ok_at(p, base2, k) by {
        assert(src_ok_at(p, base, k));
    }
    assert forall|k: int| 0 <= k < p.len() implies #[trigger] fresh_at(p, base2, k) by {
        assert(fresh_at(p, base, k));
        assert(dests(p).contains(p[k].dest));
        assert(!base2.contains(p[k].dest));
    }
}

/// Two well-formed plans compose when the second may rely on everything the
/// first wrote.
pub proof fn lemma_wf_concat(p1: Seq<Cut>, p2: Seq<Cut>, base: Set<int>)
    requires
        plan_wf(p1, base),
        plan_wf(p2, base.union(dests(p1))),
    ensures
        plan_wf(p1 + p2, base),
        dests(p1 + p2) == dests(p1).union(dests(p2)),
{
    let p = p1 + p2;
    let n1 = p1.len() as int;
    assert forall|k: int| 0 <= k < p.len() implies #[trigger] src_ok_at(p, base, k) by {
        if k < n1 {
            assert(src_ok_at(p1, base, k));
            assert(p[k] == p1[k]);
            assert forall|j: int| 0 <= j < k implies p[j] == p1[j] by {}
        } else {
            let k2 = k - n1;
            assert(src_ok_at(p2, base.union(dests(p1)), k2));
            assert(p[k] == p2[k2]);
            if base.union(dests(p1)).contains(p2[k2].lo) && !base.contains(p2[k2].lo) {
                assert(dests(p1).contains(p2[k2].lo));
                let i = choose|i: int| 0 <= i < p1.len() && p1[i].dest == p2[k2].lo;
                assert(p[i].dest == p[k].lo && 0 <= i < k);
            }
            if !base.contains(p2[k2].lo) && !dests(p1).contains(p2[k2].lo) {
                let j2 = choose|j: int| 0 <= j < k2 && p2[j].dest == p2[k2].lo;
                assert(p[n1 + j2].dest == p[k].lo && 0 <= n1 + j2 < k);
            }
            if base.union(dests(p1)).contains(p2[k2].hi) && !base.contains(p2[k2].hi) {
                assert(dests(p1).contains(p2[k2].hi));
                let i = choose|i: int| 0 <= i < p1.len() && p1[i].dest == p2[k2].hi;
                assert(p[i].dest == p[k].hi && 0 <= i < k);
            }
            if !base.contains(p2[k2].hi) && !dests(p1).contains(p2[k2].hi) {
                let j2 = choose|j: int| 0 <= j < k2 && p2[j].dest == p2[k2].hi;
                assert(p[n1 + j2].dest == p[k].hi && 0 <= n1 + j2 < k);
            }
        }
    }
    assert forall|k: int| 0 <= k < p.len() implies #[trigger] fresh_at(p, base, k) by {
        if k < n1 {
            assert(fresh_at(p1, base, k));
            assert forall|j: int| 0 <= j < k implies (#[trigger] p[j].dest) != p[k].dest by {
                assert(p[j] == p1[j] && p[k] == p1[k]);
            }
        } else {
            let k2 = k - n1;
            assert(fresh_at(p2, base.union(dests(p1)), k2));
            assert(!base.union(dests(p1)).contains(p2[k2].dest));
            assert forall|j: int| 0 <= j < k implies (#[trigger] p[j].dest) != p[k].dest by {
                if j < n1 {
                    assert(p[j] == p1[j]);
                    assert(dests(p1).contains(p1[j].dest));
                } else {
                    assert(p[j] == p2[j - n1]);
                }
            }
        }
    }
    assert(dests(p1 + p2) =~= dests(p1).union(dests(p2))) by {
        assert forall|x: int| dests(p1 + p2).contains(x) implies dests(p1).union(dests(p2)).contains(
            x,
        ) by {
            let i = choose|i: int| 0 <= i < p.len() && p[i].dest == x;
            if i < n1 {
                assert(p1[i].dest == x);
            } else {
                assert(p2[i - n1].dest == x);
            }
        }
        assert forall|x: int| dests(p1).union(dests(p2)).contains(x) implies dests(
            p1 + p2,
        ).contains(x) by {
            if dests(p1).contains(x) {
                let i = choose|i: int| 0 <= i < p1.len() && p1[i].dest == x;
                assert(p[i].dest == x);
            } else {
                let i = choose|i: int| 0 <= i < p2.len() && p2[i].dest == x;
                assert(p[n1 + i].dest == x);
            }
        }
    }
}

} // verus!

verus! {

/// Cutting an arc writes exactly the `len` slots of its span, each once, and
/// reads only its two endpoints and slots it has already written.
pub proof fn lemma_arc_cuts_wf(off: int, len: int, lo: int, hi: int)
    requires
        is_arc_len(len),
        len >= 0,
        !slot_range(off, off + len).contains(lo),
        !slot_range(off, off + len).contains(hi),
    ensures
        arc_cuts(off, len, lo, hi).len() == len,
        dests(arc_cuts(off, len, lo, hi)) == slot_range(off, off + len),
        plan_wf(arc_cuts(off, len, lo, hi), set![lo, hi]),
    decreases len,
{
    let p = arc_cuts(off, len, lo, hi);
    if len <= 0 {
        assert(dests(p) =~= slot_range(off, off + len));
    } else {
        lemma_arc_len_half(len);
        let half = len / 2;
        let mid = off + half;
        let c0 = seq![Cut { dest: mid, lo: lo, hi: hi }];
        let left = arc_cuts(off, half, lo, mid);
        let right = arc_cuts(mid + 1, half, mid, hi);
        assert(p == c0 + left + right);

        lemma_arc_cuts_wf(off, half, lo, mid);
        lemma_arc_cuts_wf(mid + 1, half, mid, hi);

        // The first cut alone.
        assert(dests(c0) =~= set![mid]) by {
            assert(c0[0].dest == mid);
        }
        assert(plan_wf(c0, set![lo, hi])) by {
            assert(src_ok_at(c0, set![lo, hi], 0));
            assert(fresh_at(c0, set![lo, hi], 0));
        }

        // The left half may rely on the midpoint just written.
        let base_l = set![lo, hi].union(dests(c0));
        assert(plan_wf(left, base_l)) by {
            assert(set![lo, mid].subset_of(base_l)) by {
                assert(base_l.contains(lo) && base_l.contains(mid));
            }
            assert(dests(left).disjoint(base_l)) by {
                assert forall|x: int| dests(left).contains(x) implies !base_l.contains(x) by {
                    assert(off <= x < off + half);
                }
            }
            lemma_wf_widen(left, set![lo, mid], base_l);
        }
        lemma_wf_concat(c0, left, set![lo, hi]);

        // The right half may rely on the midpoint and everything to its left.
        let d1 = dests(c0 + left);
        let base_r = set![lo, hi].union(d1);
        assert(plan_wf(right, base_r)) by {
            assert(set![mid, hi].subset_of(base_r)) by {
                assert(d1.contains(mid));
                assert(base_r.contains(mid) && base_r.contains(hi));
            }
            assert(dests(right).disjoint(base_r)) by {
                assert forall|x: int| dests(right).contains(x) implies !base_r.contains(x) by {
                    assert(mid + 1 <= x < mid + 1 + half);
                    assert(!dests(c0).contains(x) && !dests(left).contains(x));
                }
            }
            lemma_wf_widen(right, set![mid, hi], base_r);
        }
        lemma_wf_concat(c0 + left, right, set![lo, hi]);

        assert(dests(p) =~= slot_range(off, off + len)) by {
            assert(dests(p) == dests(c0 + left).union(dests(right)));
            assert(dests(c0 + left) == dests(c0).union(dests(left)));
            assert forall|x: int| slot_range(off, off + len).contains(x) implies dests(p).contains(
                x,
            ) by {
                if x == mid {
                    assert(dests(c0).contains(x));
                } else if x < mid {
                    assert(slot_range(off, off + half).contains(x));
                } else {
                    assert(slot_range(mid + 1, mid + 1 + half).contains(x));
                }
            }
        }
        assert(p.len() == len);
    }
}

} // verus!
