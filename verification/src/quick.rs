use vstd::prelude::*;

use crate::step::{
    extends_trace, lemma_extends_push, lemma_extends_refl, lemma_extends_trans, replay, silent,
    sorted, swap_in_array, trace_wf, Frame, SortOp, Step, Tone,
};

verus! {

/// Two arrays that agree outside a window and hold the same values overall
/// hold the same values inside the window.
proof fn lemma_window_multiset(s1: Seq<u32>, s2: Seq<u32>, lo: int, hi: int)
    requires
        s1.len() == s2.len(),
        0 <= lo <= hi <= s1.len(),
        s1.to_multiset() == s2.to_multiset(),
        forall|k: int| 0 <= k < s1.len() && !(lo <= k < hi) ==> s1[k] == s2[k],
    ensures
        s1.subrange(lo, hi).to_multiset() == s2.subrange(lo, hi).to_multiset(),
{
    broadcast use vstd::seq_lib::lemma_multiset_commutative;
    broadcast use vstd::multiset::group_multiset_axioms;
    broadcast use vstd::multiset::group_multiset_properties;

    let n: int = s1.len() as int;
    let a = s1.subrange(0, lo);
    let r = s1.subrange(hi, n);
    let m1 = s1.subrange(lo, hi);
    let m2 = s2.subrange(lo, hi);
    assert(s1 =~= a + m1 + r);
    assert(s2 =~= a + m2 + r);
    assert((a + m1 + r).to_multiset() == a.to_multiset().add(m1.to_multiset()).add(
        r.to_multiset(),
    ));
    assert((a + m2 + r).to_multiset() == a.to_multiset().add(m2.to_multiset()).add(
        r.to_multiset(),
    ));
    assert forall|v: u32| m1.to_multiset().count(v) == m2.to_multiset().count(v) by {
        assert(s1.to_multiset().count(v) == a.to_multiset().count(v) + m1.to_multiset().count(v)
            + r.to_multiset().count(v));
        assert(s2.to_multiset().count(v) == a.to_multiset().count(v) + m2.to_multiset().count(v)
            + r.to_multiset().count(v));
    };
    assert(m1.to_multiset() =~= m2.to_multiset());
}

/// Bounds on all values carry over to any rearrangement of those values.
proof fn lemma_multiset_bounds(s1: Seq<u32>, s2: Seq<u32>, b: u32)
    requires
        s1.to_multiset() == s2.to_multiset(),
    ensures
        (forall|k: int| 0 <= k < s1.len() ==> s1[k] <= b) ==> (forall|k: int|
            0 <= k < s2.len() ==> s2[k] <= b),
        (forall|k: int| 0 <= k < s1.len() ==> s1[k] > b) ==> (forall|k: int|
            0 <= k < s2.len() ==> s2[k] > b),
{
    broadcast use vstd::seq_lib::group_to_multiset_ensures;

    assert forall|k: int| 0 <= k < s2.len() implies s1.contains(s2[k]) by {
        assert(s2.contains(s2[k]));
        assert(s2.to_multiset().count(s2[k]) > 0);
    };
}

/// Lomuto partition around the last element of the window: elements at most
/// the pivot are swapped into the growing left region, each comparison and
/// each swap showing a frame (with a short tone when sound is on), and the
/// pivot is finally swapped into its resting place.
fn partition(
    array: &mut Vec<u32>,
    low: usize,
    high: usize,
    use_sound: bool,
    steps: &mut Vec<Step>,
) -> (p: usize)
    requires
        low < high < old(array)@.len(),
    ensures
        low <= p <= high,
        final(array)@.len() == old(array)@.len(),
        final(array)@.to_multiset() == old(array)@.to_multiset(),
        forall|k: int| 0 <= k < old(array)@.len() && !(low <= k <= high) ==> final(array)@[k]
            == old(array)@[k],
        forall|k: int| low <= k < p ==> final(array)@[k] <= final(array)@[p as int],
        forall|k: int| p < k <= high ==> final(array)@[k] > final(array)@[p as int],
        final(array)@[p as int] == old(array)@[high as int],
        extends_trace(
            old(steps)@,
            final(steps)@,
            old(array)@,
            final(array)@,
            old(array)@.len() as nat,
            !use_sound,
        ),
{
    let ghost t0 = steps@;
    let ghost s0 = array@;
    let n: usize = array.len();
    let pivot: u32 = array[high];
    let mut i: usize = low;
    proof {
        lemma_extends_refl(t0, s0, n as nat, !use_sound);
    }
    for j in low..high
        invariant
            low <= i <= j <= high < n,
            n == array@.len(),
            s0.len() == n,
            array@.to_multiset() == s0.to_multiset(),
            array@[high as int] == pivot,
            forall|k: int| low <= k < i ==> array@[k] <= pivot,
            forall|k: int| i <= k < j ==> array@[k] > pivot,
            forall|k: int| 0 <= k < n && !(low <= k <= high) ==> array@[k] == s0[k],
            extends_trace(t0, steps@, s0, array@, n as nat, !use_sound),
    {
        let tone: Option<Tone> = if use_sound {
            Some(Tone { value: array[j], millis: 5 })
        } else {
            None
        };
        let frame = Frame {
            highlight_a: Some(j),
            highlight_b: Some(high),
            sorted_from: None,
            tone,
        };
        proof {
            lemma_extends_push(t0, steps@, s0, array@, n as nat, !use_sound, Step::Show(frame));
        }
        steps.push(Step::Show(frame));
        if array[j] <= pivot {
            let swap_step = Step::Apply(SortOp::Swap(i, j));
            proof {
                lemma_extends_push(t0, steps@, s0, array@, n as nat, !use_sound, swap_step);
            }
            swap_in_array(array, i, j);
            steps.push(swap_step);
            let tone2: Option<Tone> = if use_sound {
                Some(Tone { value: array[i], millis: 5 })
            } else {
                None
            };
            let frame2 = Frame {
                highlight_a: Some(i),
                highlight_b: Some(j),
                sorted_from: None,
                tone: tone2,
            };
            proof {
                lemma_extends_push(
                    t0,
                    steps@,
                    s0,
                    array@,
                    n as nat,
                    !use_sound,
                    Step::Show(frame2),
                );
            }
            steps.push(Step::Show(frame2));
            i += 1;
        }
    }
    let swap_step = Step::Apply(SortOp::Swap(i, high));
    proof {
        lemma_extends_push(t0, steps@, s0, array@, n as nat, !use_sound, swap_step);
    }
    swap_in_array(array, i, high);
    steps.push(swap_step);
    let tone: Option<Tone> = if use_sound {
        Some(Tone { value: array[i], millis: 5 })
    } else {
        None
    };
    let frame = Frame { highlight_a: Some(i), highlight_b: Some(high), sorted_from: None, tone };
    proof {
        lemma_extends_push(t0, steps@, s0, array@, n as nat, !use_sound, Step::Show(frame));
    }
    steps.push(Step::Show(frame));
    i
}

/// Recursive Quick Sort over a window of the array. After the recursive
/// calls return, one frame marks the indices from the window's lower bound
/// onward as sorted — a cosmetic approximation kept from the visualization
/// design, not a claim about the array.
fn quick_sort_recursive(
    array: &mut Vec<u32>,
    low: usize,
    high: usize,
    use_sound: bool,
    steps: &mut Vec<Step>,
)
    requires
        low <= high < old(array)@.len(),
    ensures
        final(array)@.len() == old(array)@.len(),
        final(array)@.to_multiset() == old(array)@.to_multiset(),
        forall|k: int| 0 <= k < old(array)@.len() && !(low <= k <= high) ==> final(array)@[k]
            == old(array)@[k],
        forall|k1: int, k2: int| low <= k1 <= k2 <= high ==> final(array)@[k1]
            <= final(array)@[k2],
        extends_trace(
            old(steps)@,
            final(steps)@,
            old(array)@,
            final(array)@,
            old(array)@.len() as nat,
            !use_sound,
        ),
    decreases high - low,
{
    let ghost t0 = steps@;
    let ghost s0 = array@;
    let n: usize = array.len();
    proof {
        lemma_extends_refl(t0, s0, n as nat, !use_sound);
    }
    if low < high {
        let p: usize = partition(array, low, high, use_sound, steps);
        let ghost s1 = array@;
        let ghost t1 = steps@;
        let ghost pv: u32 = s1[p as int];
        if p > low {
            quick_sort_recursive(array, low, p - 1, use_sound, steps);
            proof {
                lemma_window_multiset(s1, array@, low as int, p as int);
                lemma_multiset_bounds(
                    s1.subrange(low as int, p as int),
                    array@.subrange(low as int, p as int),
                    pv,
                );
                assert(forall|k: int| low <= k < p ==> array@[k]
                    == array@.subrange(low as int, p as int)[k - low]);
                lemma_extends_trans(t0, t1, steps@, s0, s1, array@, n as nat, !use_sound);
            }
        }
        let ghost s2 = array@;
        let ghost t2 = steps@;
        if p < high {
            quick_sort_recursive(array, p + 1, high, use_sound, steps);
            proof {
                lemma_window_multiset(s2, array@, p as int + 1, high as int + 1);
                lemma_multiset_bounds(
                    s2.subrange(p as int + 1, high as int + 1),
                    array@.subrange(p as int + 1, high as int + 1),
                    pv,
                );
                assert(forall|k: int| p < k <= high ==> array@[k]
                    == array@.subrange(p as int + 1, high as int + 1)[k - p - 1]);
                lemma_extends_trans(t0, t2, steps@, s0, s2, array@, n as nat, !use_sound);
            }
        }
        proof {
            assert(array@[p as int] == pv);
            assert forall|k1: int, k2: int| low <= k1 <= k2 <= high implies array@[k1]
                <= array@[k2] by {
                let pp = p as int;
                if k1 < pp {
                    assert(array@[k1] <= pv);
                }
                if k2 < pp {
                    assert(array@[k2] <= pv);
                }
                if k1 > pp {
                    assert(array@[k1] > pv);
                }
                if k2 > pp {
                    assert(array@[k2] > pv);
                }
            };
        }
    }
    let frame = Frame { highlight_a: None, highlight_b: None, sorted_from: Some(low), tone: None };
    proof {
        lemma_extends_push(t0, steps@, s0, array@, n as nat, !use_sound, Step::Show(frame));
    }
    steps.push(Step::Show(frame));
}

/// Quick Sort, instrumented for visualization (Lomuto scheme, last element
/// of each window as pivot). An empty array returns at once with an empty
/// trace. The returned trace replays the input contents into the sorted
/// output.
pub fn quick_sort_visualized(array: &mut Vec<u32>, use_sound: bool) -> (steps: Vec<Step>)
    ensures
        final(array)@.len() == old(array)@.len(),
        final(array)@.to_multiset() == old(array)@.to_multiset(),
        sorted(final(array)@),
        replay(old(array)@, steps@) == final(array)@,
        trace_wf(steps@, final(array)@.len() as nat),
        !use_sound ==> silent(steps@),
        old(array)@.len() == 0 ==> steps@.len() == 0,
        old(array)@.len() > 0 ==> steps@.len() > 0 && steps@.last() == (Step::Show(
            Frame { highlight_a: None, highlight_b: None, sorted_from: Some(0), tone: None },
        )),
{
    let n: usize = array.len();
    let mut steps: Vec<Step> = Vec::new();
    proof {
        assert(steps@ =~= Seq::<Step>::empty());
        lemma_extends_refl(Seq::<Step>::empty(), old(array)@, n as nat, !use_sound);
    }
    if n == 0 {
        return steps;
    }
    quick_sort_recursive(array, 0, n - 1, use_sound, &mut steps);
    let frame = Frame { highlight_a: None, highlight_b: None, sorted_from: Some(0), tone: None };
    proof {
        lemma_extends_push(
            Seq::<Step>::empty(),
            steps@,
            old(array)@,
            array@,
            n as nat,
            !use_sound,
            Step::Show(frame),
        );
    }
    steps.push(Step::Show(frame));
    proof {
        assert(steps@.skip(0) =~= steps@);
    }
    steps
}

} // verus!
