//! Reordering of one segment's pixels. The sort key is always the product
//! metric, whatever metric classified the segment: ascending under White and
//! Bright, descending under Black and Dark. Equal keys keep their original
//! relative order (the sort is stable).

use vstd::prelude::*;
use crate::pixel::{Mode, Pixel, product_metric, pixel_value};

verus! {

/// Whether a mode sorts its segments by ascending product metric.
pub open spec fn ascending_mode(m: Mode) -> bool {
    match m {
        Mode::White | Mode::Bright => true,
        Mode::Black | Mode::Dark => false,
    }
}

/// The non-strict key order of a mode: a may stand before b.
pub open spec fn in_order(a: Pixel, b: Pixel, m: Mode) -> bool {
    if ascending_mode(m) {
        product_metric(a) <= product_metric(b)
    } else {
        product_metric(a) >= product_metric(b)
    }
}

/// The strict key order of a mode: a must stand before b.
pub open spec fn precedes_strictly(a: Pixel, b: Pixel, m: Mode) -> bool {
    if ascending_mode(m) {
        product_metric(a) < product_metric(b)
    } else {
        product_metric(a) > product_metric(b)
    }
}

/// A sequence ordered by the mode's key order.
pub open spec fn sorted_for_mode(s: Seq<Pixel>, m: Mode) -> bool {
    forall|i: int, j: int| 0 <= i < j < s.len() ==> in_order(s[i], s[j], m)
}

/// Stable insertion of p into a sorted sequence: p moves left past the
/// elements it strictly precedes and lands after every element whose key
/// equals its own.
pub open spec fn insert_in(s: Seq<Pixel>, p: Pixel, m: Mode) -> Seq<Pixel>
    decreases s.len(),
{
    if s.len() == 0 {
        seq![p]
    } else if precedes_strictly(p, s.last(), m) {
        insert_in(s.drop_last(), p, m).push(s.last())
    } else {
        s.push(p)
    }
}

/// Stable insertion sort of a segment, taking the elements left to right.
pub open spec fn sort_line_spec(s: Seq<Pixel>, m: Mode) -> Seq<Pixel>
    decreases s.len(),
{
    if s.len() == 0 {
        Seq::empty()
    } else {
        insert_in(sort_line_spec(s.drop_last(), m), s.last(), m)
    }
}

/// Inserting into a sorted sequence keeps it sorted, grows it by one, and
/// adds exactly the inserted pixel to its contents.
pub proof fn lemma_insert_in_props(s: Seq<Pixel>, p: Pixel, m: Mode)
    requires
        sorted_for_mode(s, m),
    ensures
        insert_in(s, p, m).len() == s.len() + 1,
        insert_in(s, p, m).to_multiset() == s.to_multiset().insert(p),
        sorted_for_mode(insert_in(s, p, m), m),
    decreases s.len(),
{
    broadcast use vstd::seq_lib::group_to_multiset_ensures;

    let r = insert_in(s, p, m);
    if s.len() == 0 {
        assert(seq![p] =~= Seq::<Pixel>::empty().push(p));
        assert(r.to_multiset() == s.to_multiset().insert(p));
    } else if precedes_strictly(p, s.last(), m) {
        let dl = s.drop_last();
        assert(sorted_for_mode(dl, m)) by {
            assert forall|i: int, j: int| 0 <= i < j < dl.len() implies in_order(dl[i], dl[j], m) by {
                assert(in_order(s[i], s[j], m));
            }
        }
        lemma_insert_in_props(dl, p, m);
        let ri = insert_in(dl, p, m);
        assert(r == ri.push(s.last()));
        // Contents: dl with p then s.last() added is s with p added.
        assert(dl.push(s.last()) =~= s);
        assert(r.to_multiset() == s.to_multiset().insert(p)) by {
            assert(r.to_multiset() == ri.to_multiset().insert(s.last()));
            assert(ri.to_multiset() == dl.to_multiset().insert(p));
            assert(dl.push(s.last()).to_multiset() == dl.to_multiset().insert(s.last()));
            assert(dl.to_multiset().insert(p).insert(s.last())
                =~= dl.to_multiset().insert(s.last()).insert(p));
        }
        // Order: every element of ri may stand before the old last element.
        assert forall|i: int, j: int| 0 <= i < j < r.len() implies in_order(r[i], r[j], m) by {
            if j < r.len() - 1 {
                assert(in_order(ri[i], ri[j], m));
            } else {
                // r[j] is s.last(); r[i] is an element of ri, so it is p or
                // stood somewhere in dl.
                assert(r[i] == ri[i]);
                assert(ri.to_multiset().count(ri[i]) > 0);
                if ri[i] == p {
                    assert(in_order(p, s.last(), m));
                } else {
                    assert(dl.to_multiset().count(ri[i]) > 0);
                    assert(dl.contains(ri[i]));
                    let k = choose|k: int| 0 <= k < dl.len() && dl[k] == ri[i];
                    assert(in_order(s[k], s[s.len() - 1], m));
                }
            }
        }
    } else {
        assert(r == s.push(p));
        assert(r.to_multiset() == s.to_multiset().insert(p));
        // p's key does not strictly precede the largest key, so p may close
        // the sequence.
        assert forall|i: int, j: int| 0 <= i < j < r.len() implies in_order(r[i], r[j], m) by {
            if j == r.len() - 1 {
                if i < s.len() - 1 {
                    assert(in_order(s[i], s[s.len() - 1], m));
                }
                assert(in_order(s.last(), p, m));
            } else {
                assert(in_order(s[i], s[j], m));
            }
        }
    }
}

/// The sorted segment is a permutation of the original with the same length,
/// ordered by the mode's key order: the product metric, ascending for White
/// and Bright, descending for Black and Dark.
pub proof fn lemma_sort_line_props(s: Seq<Pixel>, m: Mode)
    ensures
        sort_line_spec(s, m).len() == s.len(),
        sort_line_spec(s, m).to_multiset() == s.to_multiset(),
        sorted_for_mode(sort_line_spec(s, m), m),
    decreases s.len(),
{
    broadcast use vstd::seq_lib::group_to_multiset_ensures;

    if s.len() == 0 {
        assert(sort_line_spec(s, m).to_multiset() =~= s.to_multiset());
    } else {
        let dl = s.drop_last();
        lemma_sort_line_props(dl, m);
        lemma_insert_in_props(sort_line_spec(dl, m), s.last(), m);
        assert(dl.push(s.last()) =~= s);
        assert(dl.push(s.last()).to_multiset() == dl.to_multiset().insert(s.last()));
    }
}

/// Pops elements strictly after p off the end, appends p, and puts the
/// popped elements back: the executable mirror of `insert_in`.
fn insert_sorted(v: &mut Vec<Pixel>, p: Pixel, m: Mode)
    ensures
        final(v)@ == insert_in(old(v)@, p, m),
{
    let ghost target = insert_in(old(v)@, p, m);
    let mut tail: Vec<Pixel> = Vec::new();
    loop
        invariant
            insert_in(v@, p, m) + tail@.reverse() == target,
        ensures
            insert_in(v@, p, m) + tail@.reverse() == target,
            v@.len() == 0 || !precedes_strictly(p, v@.last(), m),
        decreases v@.len(),
    {
        let n: usize = v.len();
        if n == 0 {
            break;
        }
        let last: Pixel = v[n - 1];
        let lastkey: u32 = pixel_value(&last);
        let newkey: u32 = pixel_value(&p);
        let goes_left: bool = match m {
            Mode::White | Mode::Bright => newkey < lastkey,
            Mode::Black | Mode::Dark => newkey > lastkey,
        };
        if !goes_left {
            break;
        }
        let ghost prev = v@;
        let ghost prevtail = tail@;
        v.pop();
        tail.push(last);
        proof {
            assert(prev.last() == last);
            assert(precedes_strictly(p, last, m));
            assert(v@ =~= prev.drop_last());
            assert(insert_in(prev, p, m) == insert_in(prev.drop_last(), p, m).push(last));
            assert(tail@.reverse() =~= seq![last] + prevtail.reverse());
            assert(insert_in(v@, p, m) + tail@.reverse()
                =~= insert_in(prev, p, m) + prevtail.reverse());
        }
    }
    proof {
        if v@.len() == 0 {
            assert(insert_in(v@, p, m) == seq![p]);
            assert(v@.push(p) =~= seq![p]);
        } else {
            assert(insert_in(v@, p, m) == v@.push(p));
        }
    }
    v.push(p);
    while tail.len() > 0
        invariant
            v@ + tail@.reverse() == target,
        decreases tail@.len(),
    {
        let n: usize = tail.len();
        let last: Pixel = tail[n - 1];
        let ghost prevv = v@;
        let ghost prevtail = tail@;
        tail.pop();
        v.push(last);
        proof {
            assert(prevtail.last() == last);
            assert(tail@ =~= prevtail.drop_last());
            assert(prevtail.reverse() =~= seq![last] + prevtail.drop_last().reverse());
            assert(v@ + tail@.reverse() =~= prevv + prevtail.reverse());
        }
    }
    proof {
        assert(tail@.reverse() =~= Seq::<Pixel>::empty());
        assert(v@ + tail@.reverse() =~= v@);
    }
}

/// Sorts one extracted segment by the mode's key order, stably.
pub fn sort_segment(seg: Vec<Pixel>, m: Mode) -> (r: Vec<Pixel>)
    ensures
        r@ == sort_line_spec(seg@, m),
        r@.len() == seg@.len(),
        r@.to_multiset() == seg@.to_multiset(),
        sorted_for_mode(r@, m),
{
    let ghost whole = seg@;
    let mut out: Vec<Pixel> = Vec::new();
    let mut i: usize = 0;
    while i < seg.len()
        invariant
            0 <= i <= seg@.len(),
            seg@ == whole,
            out@ == sort_line_spec(whole.subrange(0, i as int), m),
        decreases seg@.len() - i,
    {
        proof {
            let pre = whole.subrange(0, i as int);
            let cur = whole.subrange(0, i + 1);
            assert(cur.drop_last() =~= pre);
            assert(cur.last() == whole[i as int]);
        }
        insert_sorted(&mut out, seg[i], m);
        i = i + 1;
    }
    proof {
        assert(whole.subrange(0, whole.len() as int) =~= whole);
        lemma_sort_line_props(whole, m);
    }
    out
}

} // verus!
