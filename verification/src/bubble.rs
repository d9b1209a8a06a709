use vstd::prelude::*;

use crate::step::{
    extends_trace, lemma_extends_push, lemma_extends_refl, replay, silent, sorted,
    swap_in_array, trace_wf, Frame, SortOp, Step, Tone,
};

verus! {

/// Bubble Sort, instrumented for visualization: adjacent elements are
/// compared and swapped, the pass bound shrinking by one each outer
/// iteration. Each comparison shows a frame highlighting the compared pair,
/// with the sorted boundary at the shrinking pass bound, and (with sound on)
/// a tone for the left element of the pair. The returned trace replays the
/// input contents into the sorted output.
pub fn bubble_sort_visualized(array: &mut Vec<u32>, use_sound: bool) -> (steps: Vec<Step>)
    ensures
        final(array)@.len() == old(array)@.len(),
        final(array)@.to_multiset() == old(array)@.to_multiset(),
        sorted(final(array)@),
        replay(old(array)@, steps@) == final(array)@,
        trace_wf(steps@, final(array)@.len() as nat),
        !use_sound ==> silent(steps@),
        old(array)@.len() == 0 ==> steps@.len() == 0,
        old(array)@.len() > 0 ==> steps@.len() > 0 && steps@.last() == (Step::Show(
            Frame { highlight_a: None, highlight_b: None, sorted_from: Some(0), tone: None },
        )),
{
    let n: usize = array.len();
    let mut steps: Vec<Step> = Vec::new();
    proof {
        assert(steps@ =~= Seq::<Step>::empty());
        lemma_extends_refl(Seq::<Step>::empty(), old(array)@, n as nat, !use_sound);
    }
    if n == 0 {
        return steps;
    }
    for i in 0..n
        invariant
            n == array@.len(),
            n == old(array)@.len(),
            1 <= n,
            extends_trace(Seq::<Step>::empty(), steps@, old(array)@, array@, n as nat, !use_sound),
            array@.to_multiset() == old(array)@.to_multiset(),
            forall|k1: int, k2: int| 0 <= k1 <= k2 < n && n - i <= k2 ==> array@[k1] <= array@[k2],
    {
        let m: usize = n - 1 - i;
        for j in 0..m
            invariant
                n == array@.len(),
                n == old(array)@.len(),
                m == n - 1 - i,
                i < n,
                extends_trace(
                    Seq::<Step>::empty(),
                    steps@,
                    old(array)@,
                    array@,
                    n as nat,
                    !use_sound,
                ),
                array@.to_multiset() == old(array)@.to_multiset(),
                forall|k1: int, k2: int|
                    0 <= k1 <= k2 < n && n - i <= k2 ==> array@[k1] <= array@[k2],
                forall|k: int| 0 <= k < j ==> array@[k] <= array@[j as int],
        {
            let tone: Option<Tone> = if use_sound {
                Some(Tone { value: array[j], millis: 15 })
            } else {
                None
            };
            let frame = Frame {
                highlight_a: Some(j),
                highlight_b: Some(j + 1),
                sorted_from: Some(n - i),
                tone,
            };
            proof {
                lemma_extends_push(
                    Seq::<Step>::empty(),
                    steps@,
                    old(array)@,
                    array@,
                    n as nat,
                    !use_sound,
                    Step::Show(frame),
                );
            }
            steps.push(Step::Show(frame));
            if array[j] > array[j + 1] {
                let swap_step = Step::Apply(SortOp::Swap(j, j + 1));
                proof {
                    lemma_extends_push(
                        Seq::<Step>::empty(),
                        steps@,
                        old(array)@,
                        array@,
                        n as nat,
                        !use_sound,
                        swap_step,
                    );
                }
                swap_in_array(array, j, j + 1);
                steps.push(swap_step);
            }
        }
    }
    let frame = Frame { highlight_a: None, highlight_b: None, sorted_from: Some(0), tone: None };
    proof {
        lemma_extends_push(
            Seq::<Step>::empty(),
            steps@,
            old(array)@,
            array@,
            n as nat,
            !use_sound,
            Step::Show(frame),
        );
    }
    steps.push(Step::Show(frame));
    proof {
        assert(steps@.skip(0) =~= steps@);
    }
    steps
}

} // verus!
