use vstd::prelude::*;

verus! {

/// One in-place mutation of the array being visualized.
#[derive(Clone, Copy, Debug, PartialEq, Eq, Structural)]
pub enum SortOp {
    /// Exchange the elements at the two indices.
    Swap(usize, usize),
    /// Store the value at the index.
    Write(usize, u32),
}

/// A tone sounded at one instrumentation point: the element's value sets the
/// pitch and the duration paces the animation.
#[derive(Clone, Copy, Debug, PartialEq, Eq, Structural)]
pub struct Tone {
    pub value: u32,
    pub millis: u64,
}

/// The arguments of one full redraw: which bars to highlight, where the
/// sorted region begins, and the tone to sound first, if sound is on.
#[derive(Clone, Copy, Debug)]
pub struct Frame {
    pub highlight_a: Option<usize>,
    pub highlight_b: Option<usize>,
    pub sorted_from: Option<usize>,
    pub tone: Option<Tone>,
}

/// One step of a visualized sort: either mutate the array, or show a frame
/// of the current array.
#[derive(Clone, Copy, Debug)]
pub enum Step {
    Apply(SortOp),
    Show(Frame),
}

/// The array is in ascending order.
pub open spec fn sorted(s: Seq<u32>) -> bool {
    forall|i: int, j: int| 0 <= i <= j < s.len() ==> s[i] <= s[j]
}

/// The contents after performing one mutation; out-of-range indices leave
/// the contents unchanged.
pub open spec fn apply_op(s: Seq<u32>, op: SortOp) -> Seq<u32> {
    match op {
        SortOp::Swap(i, j) => if i < s.len() && j < s.len() {
            s.update(i as int, s[j as int]).update(j as int, s[i as int])
        } else {
            s
        },
        SortOp::Write(i, v) => if i < s.len() {
            s.update(i as int, v)
        } else {
            s
        },
    }
}

/// The contents after one step: a frame changes nothing.
pub open spec fn apply_step(s: Seq<u32>, st: Step) -> Seq<u32> {
    match st {
        Step::Apply(op) => apply_op(s, op),
        Step::Show(_) => s,
    }
}

/// The contents after replaying every step of a trace, in order, from the
/// given starting contents.
pub open spec fn replay(s: Seq<u32>, steps: Seq<Step>) -> Seq<u32>
    decreases steps.len(),
{
    if steps.len() == 0 {
        s
    } else {
        apply_step(replay(s, steps.drop_last()), steps.last())
    }
}

pub open spec fn idx_wf(o: Option<usize>, n: nat) -> bool {
    match o {
        Some(i) => i < n,
        None => true,
    }
}

pub open spec fn bound_wf(o: Option<usize>, n: nat) -> bool {
    match o {
        Some(i) => i <= n,
        None => true,
    }
}

pub open spec fn op_wf(op: SortOp, n: nat) -> bool {
    match op {
        SortOp::Swap(i, j) => i < n && j < n,
        SortOp::Write(i, _) => i < n,
    }
}

/// Highlight indices name bars of the array; the sorted boundary may be one
/// past the end (meaning no bar is in the sorted region yet).
pub open spec fn frame_wf(f: Frame, n: nat) -> bool {
    idx_wf(f.highlight_a, n) && idx_wf(f.highlight_b, n) && bound_wf(f.sorted_from, n)
}

pub open spec fn step_wf(st: Step, n: nat) -> bool {
    match st {
        Step::Apply(op) => op_wf(op, n),
        Step::Show(f) => frame_wf(f, n),
    }
}

/// Every step of the trace speaks of indices of an array of length `n`.
pub open spec fn trace_wf(steps: Seq<Step>, n: nat) -> bool {
    forall|k: int| 0 <= k < steps.len() ==> step_wf(#[trigger] steps[k], n)
}

pub open spec fn step_silent(st: Step) -> bool {
    match st {
        Step::Apply(_) => true,
        Step::Show(f) => f.tone is None,
    }
}

/// No frame of the trace carries a tone.
pub open spec fn silent(steps: Seq<Step>) -> bool {
    forall|k: int| 0 <= k < steps.len() ==> step_silent(#[trigger] steps[k])
}

/// `upper` grows `lower` by steps that replay the contents `s0` into `s1`,
/// all well formed for length `n` and, when `quiet` holds, tone-free.
pub open spec fn extends_trace(
    lower: Seq<Step>,
    upper: Seq<Step>,
    s0: Seq<u32>,
    s1: Seq<u32>,
    n: nat,
    quiet: bool,
) -> bool {
    &&& lower.len() <= upper.len()
    &&& upper.subrange(0, lower.len() as int) == lower
    &&& replay(s0, upper.skip(lower.len() as int)) == s1
    &&& trace_wf(upper.skip(lower.len() as int), n)
    &&& (quiet ==> silent(upper.skip(lower.len() as int)))
}

pub proof fn lemma_replay_push(s: Seq<u32>, steps: Seq<Step>, st: Step)
    ensures
        replay(s, steps.push(st)) == apply_step(replay(s, steps), st),
{
    assert(steps.push(st).drop_last() =~= steps);
    assert(steps.push(st).last() == st);
}

pub proof fn lemma_replay_concat(s: Seq<u32>, t1: Seq<Step>, t2: Seq<Step>)
    ensures
        replay(s, t1 + t2) == replay(replay(s, t1), t2),
    decreases t2.len(),
{
    if t2.len() == 0 {
        assert(t1 + t2 =~= t1);
    } else {
        lemma_replay_concat(s, t1, t2.drop_last());
        assert((t1 + t2).drop_last() =~= t1 + t2.drop_last());
        assert((t1 + t2).last() == t2.last());
    }
}

pub proof fn lemma_extends_refl(t: Seq<Step>, s: Seq<u32>, n: nat, quiet: bool)
    ensures
        extends_trace(t, t, s, s, n, quiet),
{
    assert(t.subrange(0, t.len() as int) =~= t);
    assert(t.skip(t.len() as int) =~= Seq::<Step>::empty());
}

pub proof fn lemma_extends_push(
    lower: Seq<Step>,
    upper: Seq<Step>,
    s0: Seq<u32>,
    s1: Seq<u32>,
    n: nat,
    quiet: bool,
    st: Step,
)
    requires
        extends_trace(lower, upper, s0, s1, n, quiet),
        step_wf(st, n),
        quiet ==> step_silent(st),
    ensures
        extends_trace(lower, upper.push(st), s0, apply_step(s1, st), n, quiet),
{
    let m: int = lower.len() as int;
    assert(upper.push(st).subrange(0, m) =~= upper.subrange(0, m));
    assert(upper.push(st).skip(m) =~= upper.skip(m).push(st));
    lemma_replay_push(s0, upper.skip(m), st);
}

pub proof fn lemma_extends_trans(
    t0: Seq<Step>,
    t1: Seq<Step>,
    t2: Seq<Step>,
    s0: Seq<u32>,
    s1: Seq<u32>,
    s2: Seq<u32>,
    n: nat,
    quiet: bool,
)
    requires
        extends_trace(t0, t1, s0, s1, n, quiet),
        extends_trace(t1, t2, s1, s2, n, quiet),
    ensures
        extends_trace(t0, t2, s0, s2, n, quiet),
{
    let m0: int = t0.len() as int;
    let m1: int = t1.len() as int;
    assert(t2.subrange(0, m0) =~= t1.subrange(0, m0));
    assert(t2.skip(m0) =~= t1.skip(m0) + t2.skip(m1)) by {
        assert forall|k: int| 0 <= k < t2.len() - m0 implies t2.skip(m0)[k] == (t1.skip(m0)
            + t2.skip(m1))[k] by {
            if k < m1 - m0 {
                assert(t2.subrange(0, m1)[m0 + k] == t2[m0 + k]);
            }
        }
    }
    lemma_replay_concat(s0, t1.skip(m0), t2.skip(m1));
}

/// A swap of two in-range positions keeps the multiset of values.
pub proof fn lemma_swap_preserves_multiset(s: Seq<u32>, i: int, j: int)
    requires
        0 <= i < s.len(),
        0 <= j < s.len(),
    ensures
        s.update(i, s[j]).update(j, s[i]).to_multiset() == s.to_multiset(),
{
    broadcast use vstd::seq_lib::group_to_multiset_ensures;
    broadcast use vstd::multiset::group_multiset_axioms;
    broadcast use vstd::multiset::group_multiset_properties;

    if i == j {
        assert(s.update(i, s[j]).update(j, s[i]) =~= s);
    } else {
        let s1 = s.update(i, s[j]);
        assert(s1[j] == s[j]);
        assert(s.contains(s[i]));
        assert(s1.contains(s1[j]));
        assert(s1.update(j, s[i]).to_multiset() =~= s.to_multiset());
    }
}

/// Perform one mutation on the array; indices out of range leave it as it is.
pub fn apply_sort_op(array: &mut Vec<u32>, op: SortOp)
    ensures
        final(array)@ == apply_op(old(array)@, op),
        final(array)@.len() == old(array)@.len(),
{
    match op {
        SortOp::Swap(i, j) => {
            if i < array.len() && j < array.len() {
                let vi: u32 = array[i];
                let vj: u32 = array[j];
                array[i] = vj;
                array[j] = vi;
                proof {
                    lemma_swap_preserves_multiset(old(array)@, i as int, j as int);
                }
            }
        },
        SortOp::Write(i, v) => {
            if i < array.len() {
                array[i] = v;
            }
        },
    }
}

/// Swap two elements, recording the trace-level description of the mutation.
pub fn swap_in_array(array: &mut Vec<u32>, i: usize, j: usize)
    requires
        i < old(array)@.len(),
        j < old(array)@.len(),
    ensures
        final(array)@ == apply_op(old(array)@, SortOp::Swap(i, j)),
        final(array)@.len() == old(array)@.len(),
        final(array)@.to_multiset() == old(array)@.to_multiset(),
        final(array)@[i as int] == old(array)@[j as int],
        final(array)@[j as int] == old(array)@[i as int],
        forall|k: int| 0 <= k < old(array)@.len() && k != i && k != j
            ==> final(array)@[k] == old(array)@[k],
{
    let vi: u32 = array[i];
    let vj: u32 = array[j];
    array[i] = vj;
    array[j] = vi;
    proof {
        lemma_swap_preserves_multiset(old(array)@, i as int, j as int);
    }
}

} // verus!
