//! Processing of one line (a row or a column): find every maximal run of
//! sortable pixels, sort each run by the mode's key order, and write the
//! sorted run back over its own index range. Pixels outside every run keep
//! their place and value.

use vstd::prelude::*;
use vstd::seq_lib::lemma_multiset_commutative;
use crate::pixel::{Mode, Pixel, sortable, should_sort};
use crate::sorting::{lemma_sort_line_props, sort_line_spec, sort_segment, sorted_for_mode};

verus! {

/// The start of the maximal sortable run around an index: walks left while
/// the previous pixel is sortable.
pub open spec fn seg_start(line: Seq<Pixel>, m: Mode, j: int) -> int
    decreases j,
{
    if j <= 0 {
        0
    } else if sortable(line[j - 1], m) {
        seg_start(line, m, j - 1)
    } else {
        j
    }
}

/// The end (exclusive) of the maximal sortable run around an index: walks
/// right while the pixel is sortable.
pub open spec fn seg_end(line: Seq<Pixel>, m: Mode, j: int) -> int
    decreases line.len() - j,
{
    if j < 0 || j >= line.len() {
        line.len() as int
    } else if sortable(line[j], m) {
        seg_end(line, m, j + 1)
    } else {
        j
    }
}

/// The whole line after one processing pass: each pixel of a sortable run is
/// replaced by the pixel the sorted run puts at its offset; every other
/// pixel keeps its place and value.
pub open spec fn process_line_spec(line: Seq<Pixel>, m: Mode) -> Seq<Pixel> {
    Seq::new(
        line.len(),
        |j: int|
            if sortable(line[j], m) {
                sort_line_spec(
                    line.subrange(seg_start(line, m, j), seg_end(line, m, j)),
                    m,
                )[j - seg_start(line, m, j)]
            } else {
                line[j]
            },
    )
}

/// A pixel that no run admits keeps its place and value.
pub proof fn lemma_nonmatching_untouched(line: Seq<Pixel>, m: Mode, j: int)
    requires
        0 <= j < line.len(),
        !sortable(line[j], m),
    ensures
        process_line_spec(line, m)[j] == line[j],
{
}

/// Inside a maximal run [s, e) of sortable pixels, seg_start finds s.
proof fn lemma_run_seg_start(line: Seq<Pixel>, m: Mode, s: int, k: int)
    requires
        0 <= s <= k < line.len(),
        forall|i: int| s <= i <= k ==> sortable(#[trigger] line[i], m),
        s == 0 || !sortable(line[s - 1], m),
    ensures
        seg_start(line, m, k) == s,
    decreases k - s,
{
    if k == s {
    } else {
        assert(sortable(line[k - 1], m));
        lemma_run_seg_start(line, m, s, k - 1);
    }
}

/// Inside a maximal run ending at e of sortable pixels, seg_end finds e.
proof fn lemma_run_seg_end(line: Seq<Pixel>, m: Mode, e: int, k: int)
    requires
        0 <= k <= e <= line.len(),
        forall|i: int| k <= i < e ==> sortable(#[trigger] line[i], m),
        e == line.len() || !sortable(line[e], m),
    ensures
        seg_end(line, m, k) == e,
    decreases e - k,
{
    if k == e {
    } else {
        assert(sortable(line[k], m));
        lemma_run_seg_end(line, m, e, k + 1);
    }
}

/// Inside a maximal sortable run [s, e), the processed line carries the
/// sorted run: a permutation of the original run's pixels, ordered by the
/// mode's key order — the product metric, whatever metric classified the
/// run.
pub proof fn lemma_run_sorted(line: Seq<Pixel>, m: Mode, s: int, e: int)
    requires
        0 <= s < e <= line.len(),
        forall|i: int| s <= i < e ==> sortable(#[trigger] line[i], m),
        s == 0 || !sortable(line[s - 1], m),
        e == line.len() || !sortable(line[e], m),
    ensures
        process_line_spec(line, m).subrange(s, e) == sort_line_spec(line.subrange(s, e), m),
        process_line_spec(line, m).subrange(s, e).to_multiset()
            == line.subrange(s, e).to_multiset(),
        sorted_for_mode(process_line_spec(line, m).subrange(s, e), m),
{
    lemma_sort_line_props(line.subrange(s, e), m);
    assert(process_line_spec(line, m).subrange(s, e)
        =~= sort_line_spec(line.subrange(s, e), m)) by {
        assert forall|j: int| 0 <= j < e - s implies process_line_spec(line, m).subrange(s, e)[j]
            == sort_line_spec(line.subrange(s, e), m)[j] by {
            lemma_run_seg_start(line, m, s, s + j);
            lemma_run_seg_end(line, m, e, s + j);
        }
    }
}

/// Rewrites one line in place: scans for maximal sortable runs and sorts
/// each run by the mode's key order. The result is exactly the processed
/// line, a permutation of the input.
#[verifier::loop_isolation(false)]
#[verifier::rlimit(60)]
pub fn process_line(line: &mut Vec<Pixel>, m: Mode)
    ensures
        final(line)@.len() == old(line)@.len(),
        final(line)@ == process_line_spec(old(line)@, m),
        final(line)@.to_multiset() == old(line)@.to_multiset(),
{
    broadcast use vstd::seq_lib::group_to_multiset_ensures;
    broadcast use vstd::multiset::group_multiset_axioms;

    let ghost orig = line@;
    let ghost target = process_line_spec(orig, m);
    let mut i: usize = 0;
    while i < line.len()
        invariant
            line@.len() == orig.len(),
            0 <= i <= orig.len(),
            i == 0 || i == orig.len() || !sortable(orig[i as int], m),
            forall|k: int| i <= k < orig.len() ==> line@[k] == orig[k],
            forall|k: int| 0 <= k < i ==> line@[k] == target[k],
            line@.to_multiset() == orig.to_multiset(),
        decreases orig.len() - i,
    {
        let ghost i0 = i as int;
        let ghost cur = line@;
        // Advance over the non-sortable stretch.
        while i < line.len() && !should_sort(&line[i], m)
            invariant
                line@ == cur,
                line@.len() == orig.len(),
                i0 <= i <= orig.len(),
                forall|k: int| i0 <= k < orig.len() ==> line@[k] == orig[k],
                forall|k: int| i0 <= k < i ==> !sortable(#[trigger] orig[k], m),
            decreases orig.len() - i,
        {
            i = i + 1;
        }
        let start: usize = i;
        // Advance over the sortable run.
        while i < line.len() && should_sort(&line[i], m)
            invariant
                line@ == cur,
                line@.len() == orig.len(),
                start as int <= i <= orig.len(),
                i0 <= start as int,
                forall|k: int| i0 <= k < orig.len() ==> line@[k] == orig[k],
                forall|k: int| start <= k < i ==> sortable(#[trigger] orig[k], m),
            decreases orig.len() - i,
        {
            i = i + 1;
        }
        let end: usize = i;
        if start < end {
            proof {
                assert(sortable(orig[start as int], m));
                assert(start == 0 || !sortable(orig[start as int - 1], m)) by {
                    if i0 < start as int {
                    } else {
                        // The skip loop did not move, so the run begins where
                        // this iteration began; that index is sortable, so it
                        // is the line's first index.
                        assert(start as int == i0);
                    }
                }
            }
            // Extract the run.
            let mut seg: Vec<Pixel> = Vec::new();
            let mut j: usize = start;
            while j < end
                invariant
                    line@ == cur,
                    line@.len() == orig.len(),
                    start as int <= j <= end as int,
                    end <= orig.len(),
                    forall|k: int| i0 <= k < orig.len() ==> line@[k] == orig[k],
                    i0 <= start as int,
                    seg@ == orig.subrange(start as int, j as int),
                decreases end as int - j,
            {
                seg.push(line[j]);
                j = j + 1;
                proof {
                    assert(seg@ =~= orig.subrange(start as int, j as int)) by {
                        assert(orig.subrange(start as int, j as int)
                            =~= orig.subrange(start as int, j - 1).push(orig[j - 1]));
                    }
                }
            }
            let ghost segview = seg@;
            let sorted: Vec<Pixel> = sort_segment(seg, m);
            // Write the sorted run back over its own range.
            let ghost srt = sorted@;
            let mut w: usize = 0;
            while w < sorted.len()
                invariant
                    line@.len() == orig.len(),
                    0 <= w <= srt.len(),
                    sorted@ == srt,
                    srt.len() == end - start,
                    start as int <= end as int <= orig.len(),
                    forall|k: int| 0 <= k < start ==> line@[k] == cur[k],
                    forall|k: int| start <= k < start + w ==> line@[k] == srt[k - start],
                    forall|k: int| start + w <= k < orig.len() ==> line@[k] == cur[k],
                decreases srt.len() - w,
            {
                line.set(start + w, sorted[w]);
                w = w + 1;
            }
            proof {
                // The processed prefix now reaches end: the runs found by the
                // scan are exactly the runs the specification sorts.
                assert(segview == orig.subrange(start as int, end as int));
                assert(srt == sort_line_spec(orig.subrange(start as int, end as int), m));
                assert forall|k: int| start <= k < end implies line@[k] == target[k] by {
                    lemma_run_seg_start(orig, m, start as int, k);
                    lemma_run_seg_end(orig, m, end as int, k);
                    assert(seg_start(orig, m, k) == start as int);
                    assert(seg_end(orig, m, k) == end as int);
                    assert(sortable(orig[k], m));
                    assert(target[k] == sort_line_spec(
                        orig.subrange(start as int, end as int), m)[k - start as int]);
                    assert(line@[k] == srt[k - start]);
                }
                assert forall|k: int| i0 <= k < start implies line@[k] == target[k] by {
                    assert(!sortable(orig[k], m));
                    assert(target[k] == orig[k]);
                    assert(cur[k] == orig[k]);
                    assert(line@[k] == cur[k]);
                }
                // The whole line keeps its contents: only the run's range
                // changed, and the sorted run is a permutation of it.
                let s = start as int;
                let e = end as int;
                let n = orig.len() as int;
                assert(line@ =~= cur.subrange(0, s) + srt + cur.subrange(e, n));
                assert(cur =~= cur.subrange(0, s) + cur.subrange(s, e) + cur.subrange(e, n));
                assert(cur.subrange(s, e) =~= orig.subrange(s, e));
                lemma_multiset_commutative(cur.subrange(0, s), srt);
                lemma_multiset_commutative(cur.subrange(0, s) + srt, cur.subrange(e, n));
                lemma_multiset_commutative(cur.subrange(0, s), cur.subrange(s, e));
                lemma_multiset_commutative(cur.subrange(0, s) + cur.subrange(s, e), cur.subrange(e, n));
                assert(srt.to_multiset() == orig.subrange(s, e).to_multiset());
                assert(line@.to_multiset() =~= cur.to_multiset());
            }
        }
        proof {
            assert forall|k: int| i0 <= k < start implies line@[k] == target[k] by {
                assert(!sortable(orig[k], m));
                assert(target[k] == orig[k]);
                assert(line@[k] == orig[k]);
            }
        }
    }
    proof {
        assert(line@ =~= target);
    }
}

} // verus!
