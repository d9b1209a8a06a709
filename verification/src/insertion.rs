use vstd::prelude::*;

use crate::step::{
    extends_trace, lemma_extends_push, lemma_extends_refl, replay, silent, sorted,
    trace_wf, Frame, SortOp, Step, Tone,
};

verus! {

/// The shifted prefix holds the same values as before the shift: positions
/// below `j` are untouched, position `j` holds the key that sat at `i`, and
/// positions `j+1 ..= i` hold the elements that moved one place right.
proof fn lemma_shift_insert_multiset(a0: Seq<u32>, b: Seq<u32>, j: int, i: int)
    requires
        0 <= j <= i < a0.len(),
        b.len() == a0.len(),
        forall|k: int| 0 <= k < j ==> b[k] == a0[k],
        b[j] == a0[i],
        forall|k: int| j < k <= i ==> b[k] == a0[k - 1],
        forall|k: int| i < k < a0.len() ==> b[k] == a0[k],
    ensures
        b.to_multiset() == a0.to_multiset(),
{
    broadcast use vstd::seq_lib::lemma_multiset_commutative;
    broadcast use vstd::multiset::group_multiset_axioms;
    broadcast use vstd::multiset::group_multiset_properties;

    let n: int = a0.len() as int;
    let key = a0[i];
    assert(b =~= a0.subrange(0, j) + seq![key] + a0.subrange(j, i) + a0.subrange(i + 1, n));
    assert(a0 =~= a0.subrange(0, j) + a0.subrange(j, i) + seq![key] + a0.subrange(i + 1, n));
    assert(b.to_multiset() =~= a0.to_multiset());
}

/// Insertion Sort, instrumented for visualization: each element is shifted
/// left past the greater elements of the sorted prefix, every shift showing
/// a frame that highlights the two positions involved (with a tone for the
/// displaced element), and one more frame marks the advanced sorted
/// boundary once the element rests in place. The returned trace replays the
/// input contents into the sorted output.
pub fn insertion_sort_visualized(array: &mut Vec<u32>, use_sound: bool) -> (steps: Vec<Step>)
    ensures
        final(array)@.len() == old(array)@.len(),
        final(array)@.to_multiset() == old(array)@.to_multiset(),
        sorted(final(array)@),
        replay(old(array)@, steps@) == final(array)@,
        trace_wf(steps@, final(array)@.len() as nat),
        !use_sound ==> silent(steps@),
        old(array)@.len() == 0 ==> steps@.len() == 0,
        old(array)@.len() > 0 ==> steps@.len() > 0 && steps@.last() == (Step::Show(
            Frame { highlight_a: None, highlight_b: None, sorted_from: Some(0), tone: None },
        )),
{
    let n: usize = array.len();
    let mut steps: Vec<Step> = Vec::new();
    proof {
        assert(steps@ =~= Seq::<Step>::empty());
        lemma_extends_refl(Seq::<Step>::empty(), old(array)@, n as nat, !use_sound);
    }
    if n == 0 {
        return steps;
    }
    for i in 1..n
        invariant
            n == array@.len(),
            n == old(array)@.len(),
            1 <= n,
            extends_trace(Seq::<Step>::empty(), steps@, old(array)@, array@, n as nat, !use_sound),
            array@.to_multiset() == old(array)@.to_multiset(),
            forall|k1: int, k2: int| 0 <= k1 <= k2 < i ==> array@[k1] <= array@[k2],
    {
        let key: u32 = array[i];
        let mut j: usize = i;
        let ghost a0 = array@;
        while j > 0 && array[j - 1] > key
            invariant
                n == array@.len(),
                a0.len() == n,
                1 <= i < n,
                0 <= j <= i,
                key == a0[i as int],
                forall|k1: int, k2: int| 0 <= k1 <= k2 < i ==> a0[k1] <= a0[k2],
                forall|k: int| 0 <= k <= j ==> array@[k] == a0[k],
                forall|k: int| j < k <= i ==> array@[k] == a0[k - 1],
                forall|k: int| i < k < n ==> array@[k] == a0[k],
                forall|k: int| j < k <= i ==> array@[k] > key,
                j < i ==> a0[j as int] > key,
                a0.to_multiset() == old(array)@.to_multiset(),
                extends_trace(
                    Seq::<Step>::empty(),
                    steps@,
                    old(array)@,
                    array@,
                    n as nat,
                    !use_sound,
                ),
            decreases j,
        {
            let shifted: u32 = array[j - 1];
            let tone: Option<Tone> = if use_sound {
                Some(Tone { value: shifted, millis: 15 })
            } else {
                None
            };
            let write_step = Step::Apply(SortOp::Write(j, shifted));
            proof {
                lemma_extends_push(
                    Seq::<Step>::empty(),
                    steps@,
                    old(array)@,
                    array@,
                    n as nat,
                    !use_sound,
                    write_step,
                );
            }
            array[j] = shifted;
            steps.push(write_step);
            j -= 1;
            let frame = Frame {
                highlight_a: Some(j),
                highlight_b: Some(j + 1),
                sorted_from: Some(i),
                tone,
            };
            proof {
                lemma_extends_push(
                    Seq::<Step>::empty(),
                    steps@,
                    old(array)@,
                    array@,
                    n as nat,
                    !use_sound,
                    Step::Show(frame),
                );
            }
            steps.push(Step::Show(frame));
        }
        if array[j] != key {
            let write_step = Step::Apply(SortOp::Write(j, key));
            proof {
                lemma_extends_push(
                    Seq::<Step>::empty(),
                    steps@,
                    old(array)@,
                    array@,
                    n as nat,
                    !use_sound,
                    write_step,
                );
            }
            array[j] = key;
            steps.push(write_step);
            let tone: Option<Tone> = if use_sound {
                Some(Tone { value: key, millis: 15 })
            } else {
                None
            };
            let frame = Frame {
                highlight_a: Some(j),
                highlight_b: None,
                sorted_from: Some(i + 1),
                tone,
            };
            proof {
                lemma_extends_push(
                    Seq::<Step>::empty(),
                    steps@,
                    old(array)@,
                    array@,
                    n as nat,
                    !use_sound,
                    Step::Show(frame),
                );
            }
            steps.push(Step::Show(frame));
        } else {
            let frame = Frame {
                highlight_a: None,
                highlight_b: None,
                sorted_from: Some(i + 1),
                tone: None,
            };
            proof {
                lemma_extends_push(
                    Seq::<Step>::empty(),
                    steps@,
                    old(array)@,
                    array@,
                    n as nat,
                    !use_sound,
                    Step::Show(frame),
                );
            }
            steps.push(Step::Show(frame));
        }
        proof {
            let ii = i as int;
            let jj = j as int;
            assert forall|k1: int, k2: int| 0 <= k1 <= k2 <= ii implies array@[k1]
                <= array@[k2] by {
                if k2 < jj {
                    assert(array@[k1] == a0[k1] && array@[k2] == a0[k2]);
                    assert(a0[k1] <= a0[k2]);
                } else if k2 == jj {
                    if k1 < jj {
                        assert(array@[k1] == a0[k1]);
                        assert(a0[k1] <= a0[jj - 1]);
                        assert(a0[jj - 1] <= key);
                    }
                } else {
                    assert(array@[k2] == a0[k2 - 1] && array@[k2] > key);
                    if k1 < jj {
                        assert(array@[k1] == a0[k1]);
                        assert(a0[k1] <= a0[k2 - 1]);
                    } else if k1 == jj {
                        assert(array@[k1] == key);
                    } else {
                        assert(array@[k1] == a0[k1 - 1]);
                        assert(a0[k1 - 1] <= a0[k2 - 1]);
                    }
                }
            };
            lemma_shift_insert_multiset(a0, array@, jj, ii);
        }
    }
    let frame = Frame { highlight_a: None, highlight_b: None, sorted_from: Some(0), tone: None };
    proof {
        lemma_extends_push(
            Seq::<Step>::empty(),
            steps@,
            old(array)@,
            array@,
            n as nat,
            !use_sound,
            Step::Show(frame),
        );
    }
    steps.push(Step::Show(frame));
    proof {
        assert(steps@.skip(0) =~= steps@);
    }
    steps
}

} // verus!
