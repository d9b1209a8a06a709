use vstd::prelude::*;

use crate::step::{
    extends_trace, lemma_extends_push, lemma_extends_refl, replay, silent, sorted,
    swap_in_array, trace_wf, Frame, SortOp, Step, Tone,
};

verus! {

/// Selection Sort, instrumented for visualization: for each position the
/// remainder is scanned for its minimum, each comparison showing a frame
/// that highlights the scan index and the current minimum candidate (with a
/// tone for the scanned element); then the minimum is swapped into place, or
/// the frame is redrawn unchanged when it already is in place, advancing the
/// sorted boundary. The returned trace replays the input contents into the
/// sorted output.
pub fn selection_sort_visualized(array: &mut Vec<u32>, use_sound: bool) -> (steps: Vec<Step>)
    ensures
        final(array)@.len() == old(array)@.len(),
        final(array)@.to_multiset() == old(array)@.to_multiset(),
        sorted(final(array)@),
        replay(old(array)@, steps@) == final(array)@,
        trace_wf(steps@, final(array)@.len() as nat),
        !use_sound ==> silent(steps@),
        old(array)@.len() == 0 ==> steps@.len() == 0,
        old(array)@.len() > 0 ==> steps@.len() > 0 && steps@.last() == (Step::Show(
            Frame { highlight_a: None, highlight_b: None, sorted_from: Some(0), tone: None },
        )),
{
    let n: usize = array.len();
    let mut steps: Vec<Step> = Vec::new();
    proof {
        assert(steps@ =~= Seq::<Step>::empty());
        lemma_extends_refl(Seq::<Step>::empty(), old(array)@, n as nat, !use_sound);
    }
    if n == 0 {
        return steps;
    }
    for i in 0..(n - 1)
        invariant
            n == array@.len(),
            n == old(array)@.len(),
            1 <= n,
            extends_trace(Seq::<Step>::empty(), steps@, old(array)@, array@, n as nat, !use_sound),
            array@.to_multiset() == old(array)@.to_multiset(),
            forall|k1: int, k2: int| 0 <= k1 < i && k1 <= k2 < n ==> array@[k1] <= array@[k2],
    {
        let mut min_idx: usize = i;
        for j in (i + 1)..n
            invariant
                n == array@.len(),
                n == old(array)@.len(),
                i < n - 1,
                i <= min_idx < n,
                min_idx < j,
                extends_trace(
                    Seq::<Step>::empty(),
                    steps@,
                    old(array)@,
                    array@,
                    n as nat,
                    !use_sound,
                ),
                array@.to_multiset() == old(array)@.to_multiset(),
                forall|k1: int, k2: int| 0 <= k1 < i && k1 <= k2 < n ==> array@[k1] <= array@[k2],
                forall|k: int| i <= k < j ==> array@[min_idx as int] <= array@[k],
        {
            let tone: Option<Tone> = if use_sound {
                Some(Tone { value: array[j], millis: 15 })
            } else {
                None
            };
            let frame = Frame {
                highlight_a: Some(j),
                highlight_b: Some(min_idx),
                sorted_from: Some(i),
                tone,
            };
            proof {
                lemma_extends_push(
                    Seq::<Step>::empty(),
                    steps@,
                    old(array)@,
                    array@,
                    n as nat,
                    !use_sound,
                    Step::Show(frame),
                );
            }
            steps.push(Step::Show(frame));
            if array[j] < array[min_idx] {
                min_idx = j;
            }
        }
        if min_idx != i {
            let swap_step = Step::Apply(SortOp::Swap(i, min_idx));
            proof {
                lemma_extends_push(
                    Seq::<Step>::empty(),
                    steps@,
                    old(array)@,
                    array@,
                    n as nat,
                    !use_sound,
                    swap_step,
                );
            }
            swap_in_array(array, i, min_idx);
            steps.push(swap_step);
            let tone: Option<Tone> = if use_sound {
                Some(Tone { value: array[i], millis: 15 })
            } else {
                None
            };
            let frame = Frame {
                highlight_a: Some(i),
                highlight_b: Some(min_idx),
                sorted_from: Some(i + 1),
                tone,
            };
            proof {
                lemma_extends_push(
                    Seq::<Step>::empty(),
                    steps@,
                    old(array)@,
                    array@,
                    n as nat,
                    !use_sound,
                    Step::Show(frame),
                );
            }
            steps.push(Step::Show(frame));
        } else {
            let frame = Frame {
                highlight_a: None,
                highlight_b: None,
                sorted_from: Some(i + 1),
                tone: None,
            };
            proof {
                lemma_extends_push(
                    Seq::<Step>::empty(),
                    steps@,
                    old(array)@,
                    array@,
                    n as nat,
                    !use_sound,
                    Step::Show(frame),
                );
            }
            steps.push(Step::Show(frame));
        }
    }
    let frame = Frame { highlight_a: None, highlight_b: None, sorted_from: Some(0), tone: None };
    proof {
        lemma_extends_push(
            Seq::<Step>::empty(),
            steps@,
            old(array)@,
            array@,
            n as nat,
            !use_sound,
            Step::Show(frame),
        );
    }
    steps.push(Step::Show(frame));
    proof {
        assert(steps@.skip(0) =~= steps@);
    }
    steps
}

} // verus!
