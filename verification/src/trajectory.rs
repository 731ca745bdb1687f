//! Recorded trajectories: timestamped samples and the CSV format they are
//! stored in.

use vstd::prelude::*;

verus! {

/// One sample of a recorded trajectory: a canvas position and the time, in
/// milliseconds since the start of the recording, at which it was reached.
#[derive(Clone, Copy, Debug, PartialEq, Eq, Structural)]
pub struct Point {
    pub x: i32,
    pub y: i32,
    pub timestamp_ms: u128,
}

/// The canvas positions of a sequence of samples.
pub open spec fn positions(points: Seq<Point>) -> Seq<(int, int)> {
    points.map_values(|p: Point| (p.x as int, p.y as int))
}

/// Timestamps never decrease along the sequence.
pub open spec fn sorted_by_time(s: Seq<Point>) -> bool {
    forall|i: int, j: int| 0 <= i < j < s.len() ==> s[i].timestamp_ms <= s[j].timestamp_ms
}

/// `out` lists the samples of `orig` rearranged by `perm` (`out[i]` is
/// `orig[perm[i]]`, each sample used once), keeping samples with equal
/// timestamps in their input order.
pub open spec fn stable_arrangement(orig: Seq<Point>, out: Seq<Point>, perm: Seq<int>) -> bool {
    &&& perm.len() == out.len()
    &&& out.len() == orig.len()
    &&& forall|i: int|
        0 <= i < out.len() ==> 0 <= #[trigger] perm[i] < orig.len() && out[i] == orig[perm[i]]
    &&& forall|i: int, j: int| 0 <= i < j < out.len() ==> perm[i] != perm[j]
    &&& forall|i: int, j: int|
        0 <= i < j < out.len() && out[i].timestamp_ms == out[j].timestamp_ms ==> perm[i] < perm[j]
}

/// `out` is `orig` stably sorted by timestamp.
pub open spec fn stable_sort_of(orig: Seq<Point>, out: Seq<Point>) -> bool {
    &&& sorted_by_time(out)
    &&& exists|perm: Seq<int>| stable_arrangement(orig, out, perm)
}

/// Sorts samples by timestamp, keeping samples with equal timestamps in their
/// input order.
pub fn sort_by_timestamp(points: Vec<Point>) -> (sorted: Vec<Point>)
    ensures
        stable_sort_of(points@, sorted@),
{
    let mut out: Vec<Point> = Vec::new();
    let ghost mut perm: Seq<int> = Seq::empty();
    let mut n: usize = 0;
    while n < points.len()
        invariant
            n <= points@.len(),
            sorted_by_time(out@),
            stable_arrangement(points@.take(n as int), out@, perm),
        decreases points@.len() - n,
    {
        let p = points[n];
        let mut pos: usize = out.len();
        while pos > 0 && out[pos - 1].timestamp_ms > p.timestamp_ms
            invariant
                pos <= out@.len(),
                forall|i: int| pos <= i < out@.len() ==> (#[trigger] out@[i]).timestamp_ms
                    > p.timestamp_ms,
            decreases pos,
        {
            pos -= 1;
        }
        let ghost old_out = out@;
        let ghost old_perm = perm;
        out.insert(pos, p);
        proof {
            perm = old_perm.insert(pos as int, n as int);
            let orig = points@.take(n + 1);
            let prev = points@.take(n as int);
            assert forall|i: int| 0 <= i < pos implies (#[trigger] old_out[i]).timestamp_ms
                <= p.timestamp_ms by {
                if pos > 0 {
                    assert(old_out[pos - 1].timestamp_ms <= p.timestamp_ms);
                }
            }
            assert forall|i: int| 0 <= i < out@.len() implies 0 <= #[trigger] perm[i] < orig.len()
                && out@[i] == orig[perm[i]] by {
                if i < pos {
                    assert(out@[i] == old_out[i]);
                    assert(perm[i] == old_perm[i]);
                    assert(orig[old_perm[i]] == prev[old_perm[i]]);
                } else if i == pos {
                } else {
                    assert(out@[i] == old_out[i - 1]);
                    assert(perm[i] == old_perm[i - 1]);
                    assert(orig[old_perm[i - 1]] == prev[old_perm[i - 1]]);
                }
            }
            assert forall|i: int, j: int| 0 <= i < j < out@.len() implies perm[i] != perm[j] by {
                if i != pos && j != pos {
                    let oi = if i < pos { i } else { i - 1 };
                    let oj = if j < pos { j } else { j - 1 };
                    assert(perm[i] == old_perm[oi]);
                    assert(perm[j] == old_perm[oj]);
                } else if i == pos {
                    assert(perm[j] == old_perm[j - 1]);
                } else {
                    assert(perm[i] == old_perm[i]);
                }
            }
            assert forall|i: int, j: int|
                0 <= i < j < out@.len() && out@[i].timestamp_ms == out@[j].timestamp_ms implies perm[i]
                < perm[j] by {
                if i != pos && j != pos {
                    let oi = if i < pos { i } else { i - 1 };
                    let oj = if j < pos { j } else { j - 1 };
                    assert(perm[i] == old_perm[oi]);
                    assert(perm[j] == old_perm[oj]);
                    assert(out@[i] == old_out[oi]);
                    assert(out@[j] == old_out[oj]);
                } else if i == pos {
                    assert(out@[j] == old_out[j - 1]);
                } else {
                    assert(perm[i] == old_perm[i]);
                }
            }
            assert forall|i: int, j: int| 0 <= i < j < out@.len() implies out@[i].timestamp_ms
                <= out@[j].timestamp_ms by {
                if i != pos && j != pos {
                    let oi = if i < pos { i } else { i - 1 };
                    let oj = if j < pos { j } else { j - 1 };
                    assert(out@[i] == old_out[oi]);
                    assert(out@[j] == old_out[oj]);
                } else if i == pos {
                    assert(out@[j] == old_out[j - 1]);
                } else {
                    assert(out@[i] == old_out[i]);
                }
            }
        }
        n += 1;
    }
    proof {
        assert(points@.take(n as int) =~= points@);
    }
    out
}

/// Sample `a` of `orig` comes before sample `b` in a stable sort: an earlier
/// timestamp, or the same timestamp and an earlier position.
pub open spec fn sorts_before(orig: Seq<Point>, a: int, b: int) -> bool {
    orig[a].timestamp_ms < orig[b].timestamp_ms || (orig[a].timestamp_ms == orig[b].timestamp_ms
        && a < b)
}

proof fn lemma_arrangement_increasing(orig: Seq<Point>, out: Seq<Point>, perm: Seq<int>)
    requires
        sorted_by_time(out),
        stable_arrangement(orig, out, perm),
    ensures
        forall|i: int, j: int|
            0 <= i < j < out.len() ==> sorts_before(orig, #[trigger] perm[i], #[trigger] perm[j]),
{
    assert forall|i: int, j: int| 0 <= i < j < out.len() implies sorts_before(
        orig,
        #[trigger] perm[i],
        #[trigger] perm[j],
    ) by {
        assert(out[i] == orig[perm[i]]);
        assert(out[j] == orig[perm[j]]);
        assert(out[i].timestamp_ms <= out[j].timestamp_ms);
    }
}

proof fn lemma_arrangement_onto(orig: Seq<Point>, out: Seq<Point>, perm: Seq<int>, k: int)
    requires
        stable_arrangement(orig, out, perm),
        0 <= k < orig.len(),
    ensures
        exists|j: int| 0 <= j < perm.len() && perm[j] == k,
{
    let n = orig.len() as int;
    let dom = vstd::set_lib::set_int_range(0, n);
    let f = |i: int| perm[i];
    let img = dom.map(f);
    vstd::set_lib::lemma_int_range(0, n);
    assert(vstd::relations::injective_on(f, dom)) by {
        assert forall|x1: int, x2: int|
            dom.contains(x1) && dom.contains(x2) && #[trigger] f(x1) == #[trigger] f(x2) implies x1
            == x2 by {
            if x1 < x2 {
                assert(perm[x1] != perm[x2]);
            } else if x2 < x1 {
                assert(perm[x2] != perm[x1]);
            }
        }
    }
    vstd::set_lib::lemma_map_size(dom, img, f);
    assert(img.subset_of(dom)) by {
        assert forall|y: int| img.contains(y) implies dom.contains(y) by {
            let x = choose|x: int| dom.contains(x) && y == f(x);
            assert(0 <= perm[x] < n);
        }
    }
    vstd::set_lib::lemma_subset_equality(img, dom);
    assert(img.contains(k));
    let j = choose|x: int| dom.contains(x) && k == f(x);
    assert(perm[j] == k);
}

proof fn lemma_same_arrangement(
    orig: Seq<Point>,
    a: Seq<Point>,
    pa: Seq<int>,
    b: Seq<Point>,
    pb: Seq<int>,
    i: int,
)
    requires
        sorted_by_time(a),
        sorted_by_time(b),
        stable_arrangement(orig, a, pa),
        stable_arrangement(orig, b, pb),
        0 <= i <= orig.len(),
    ensures
        forall|k: int| 0 <= k < i ==> pa[k] == pb[k],
    decreases i,
{
    if i > 0 {
        lemma_same_arrangement(orig, a, pa, b, pb, i - 1);
        let m = i - 1;
        lemma_arrangement_increasing(orig, a, pa);
        lemma_arrangement_increasing(orig, b, pb);
        if pa[m] != pb[m] {
            let x = pa[m];
            let y = pb[m];
            lemma_arrangement_onto(orig, b, pb, x);
            lemma_arrangement_onto(orig, a, pa, y);
            let jb = choose|j: int| 0 <= j < pb.len() && pb[j] == x;
            let ja = choose|j: int| 0 <= j < pa.len() && pa[j] == y;
            if sorts_before(orig, x, y) {
                if jb < m {
                    assert(pa[jb] == pb[jb]);
                    assert(pa[jb] != pa[m]);
                } else {
                    assert(jb != m);
                    assert(sorts_before(orig, pb[m], pb[jb]));
                }
            } else {
                assert(sorts_before(orig, y, x));
                if ja < m {
                    assert(pa[ja] == pb[ja]);
                    assert(pb[ja] != pb[m]);
                } else {
                    assert(ja != m);
                    assert(sorts_before(orig, pa[m], pa[ja]));
                }
            }
        }
    }
}

/// A stable sort has exactly one result: any two sequences that are `orig`
/// stably sorted by timestamp are equal.
pub proof fn lemma_stable_sort_unique(orig: Seq<Point>, a: Seq<Point>, b: Seq<Point>)
    requires
        stable_sort_of(orig, a),
        stable_sort_of(orig, b),
    ensures
        a == b,
{
    let pa = choose|p: Seq<int>| stable_arrangement(orig, a, p);
    let pb = choose|p: Seq<int>| stable_arrangement(orig, b, p);
    lemma_same_arrangement(orig, a, pa, b, pb, orig.len() as int);
    assert forall|k: int| 0 <= k < a.len() implies a[k] == b[k] by {
        assert(pa[k] == pb[k]);
    }
    assert(a =~= b);
}

/// Sorting samples that are already in timestamp order leaves them as they are.
pub proof fn lemma_sorted_input_unchanged(orig: Seq<Point>, out: Seq<Point>)
    requires
        sorted_by_time(orig),
        stable_sort_of(orig, out),
    ensures
        out == orig,
{
    let id = Seq::new(orig.len(), |i: int| i);
    assert(stable_arrangement(orig, orig, id));
    lemma_stable_sort_unique(orig, orig, out);
}

} // verus!
