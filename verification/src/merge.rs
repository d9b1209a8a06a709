use vstd::prelude::*;

use crate::step::{
    extends_trace, lemma_extends_push, lemma_extends_refl, lemma_extends_trans, replay, silent,
    sorted, trace_wf, Frame, SortOp, Step, Tone,
};

verus! {

/// Merge of two ascending runs: the smaller head goes first, and on ties
/// the element of the left run goes first, which makes the merge stable.
pub open spec fn spec_merge(l: Seq<u32>, r: Seq<u32>) -> Seq<u32>
    decreases l.len() + r.len(),
{
    if l.len() == 0 {
        r
    } else if r.len() == 0 {
        l
    } else if l[0] <= r[0] {
        seq![l[0]] + spec_merge(l.drop_first(), r)
    } else {
        seq![r[0]] + spec_merge(l, r.drop_first())
    }
}

/// The occurrences of one value in a sequence, kept in their order.
pub open spec fn occurrences(s: Seq<u32>, v: u32) -> Seq<u32> {
    s.filter(|x: u32| x == v)
}

/// The merge holds exactly the values of the two runs together.
pub proof fn lemma_spec_merge_multiset(l: Seq<u32>, r: Seq<u32>)
    ensures
        spec_merge(l, r).to_multiset() == l.to_multiset().add(r.to_multiset()),
    decreases l.len() + r.len(),
{
    broadcast use vstd::seq_lib::lemma_multiset_commutative;
    broadcast use vstd::seq_lib::group_to_multiset_ensures;
    broadcast use vstd::multiset::group_multiset_axioms;
    broadcast use vstd::multiset::group_multiset_properties;

    if l.len() == 0 {
        assert(spec_merge(l, r).to_multiset() =~= l.to_multiset().add(r.to_multiset()));
    } else if r.len() == 0 {
        assert(spec_merge(l, r).to_multiset() =~= l.to_multiset().add(r.to_multiset()));
    } else if l[0] <= r[0] {
        lemma_spec_merge_multiset(l.drop_first(), r);
        assert(l =~= seq![l[0]] + l.drop_first());
        assert(spec_merge(l, r).to_multiset() =~= l.to_multiset().add(r.to_multiset()));
    } else {
        lemma_spec_merge_multiset(l, r.drop_first());
        assert(r =~= seq![r[0]] + r.drop_first());
        assert(spec_merge(l, r).to_multiset() =~= l.to_multiset().add(r.to_multiset()));
    }
}

/// The merge of two ascending runs is ascending.
pub proof fn lemma_spec_merge_sorted(l: Seq<u32>, r: Seq<u32>)
    requires
        sorted(l),
        sorted(r),
    ensures
        sorted(spec_merge(l, r)),
    decreases l.len() + r.len(),
{
    broadcast use vstd::seq_lib::group_to_multiset_ensures;
    broadcast use vstd::multiset::group_multiset_axioms;

    if l.len() == 0 || r.len() == 0 {
    } else {
        let lo = if l[0] <= r[0] {
            l[0]
        } else {
            r[0]
        };
        let lrest = if l[0] <= r[0] {
            l.drop_first()
        } else {
            l
        };
        let rrest = if l[0] <= r[0] {
            r
        } else {
            r.drop_first()
        };
        assert(sorted(lrest));
        assert(sorted(rrest));
        lemma_spec_merge_sorted(lrest, rrest);
        lemma_spec_merge_multiset(lrest, rrest);
        let m = spec_merge(lrest, rrest);
        assert forall|k: int| 0 <= k < m.len() implies lo <= m[k] by {
            assert(m.contains(m[k]));
            assert(m.to_multiset().count(m[k]) > 0);
            if lrest.to_multiset().count(m[k]) > 0 {
                assert(lrest.contains(m[k]));
                let t = choose|t: int| 0 <= t < lrest.len() && lrest[t] == m[k];
                if l[0] <= r[0] {
                    assert(lrest[t] == l[t + 1]);
                } else {
                    assert(lrest[t] == l[t]);
                }
            } else {
                assert(rrest.to_multiset().count(m[k]) > 0);
                assert(rrest.contains(m[k]));
                let t = choose|t: int| 0 <= t < rrest.len() && rrest[t] == m[k];
                if l[0] <= r[0] {
                    assert(rrest[t] == r[t]);
                } else {
                    assert(rrest[t] == r[t + 1]);
                }
            }
        };
        assert(spec_merge(l, r) == seq![lo] + m);
        assert forall|k1: int, k2: int| 0 <= k1 <= k2 < spec_merge(l, r).len() implies spec_merge(
            l,
            r,
        )[k1] <= spec_merge(l, r)[k2] by {
            if k1 == 0 {
                assert(spec_merge(l, r)[k1] == lo);
            } else {
                assert(spec_merge(l, r)[k1] == m[k1 - 1]);
            }
            if k2 > 0 {
                assert(spec_merge(l, r)[k2] == m[k2 - 1]);
            }
        };
    }
}

/// No occurrences of a value that is nowhere in the sequence.
pub proof fn lemma_occurrences_none(s: Seq<u32>, v: u32)
    requires
        forall|k: int| 0 <= k < s.len() ==> s[k] != v,
    ensures
        occurrences(s, v) == Seq::<u32>::empty(),
    decreases s.len(),
{
    reveal(Seq::filter);
    if s.len() == 0 {
        assert(s =~= Seq::<u32>::empty());
    } else {
        lemma_occurrences_none(s.drop_last(), v);
    }
}

/// Stability of the merge: for every value, its occurrences in the merged
/// run are those of the left run followed by those of the right run, so
/// equal elements keep their relative order and the left run's elements
/// stay in front on ties.
pub proof fn lemma_spec_merge_stable(l: Seq<u32>, r: Seq<u32>, v: u32)
    requires
        sorted(l),
    ensures
        occurrences(spec_merge(l, r), v) == occurrences(l, v) + occurrences(r, v),
    decreases l.len() + r.len(),
{
    broadcast use vstd::seq_lib::group_filter_ensures;

    reveal(Seq::filter);
    if l.len() == 0 {
        assert(occurrences(l, v) =~= Seq::<u32>::empty());
        assert(occurrences(l, v) + occurrences(r, v) =~= occurrences(r, v));
    } else if r.len() == 0 {
        assert(occurrences(r, v) =~= Seq::<u32>::empty());
        assert(occurrences(l, v) + occurrences(r, v) =~= occurrences(l, v));
    } else if l[0] <= r[0] {
        assert(sorted(l.drop_first()));
        lemma_spec_merge_stable(l.drop_first(), r, v);
        assert(seq![l[0]].drop_last() =~= Seq::<u32>::empty());
        assert(l =~= seq![l[0]] + l.drop_first());
        assert(occurrences(spec_merge(l, r), v) =~= occurrences(l, v) + occurrences(r, v));
    } else {
        lemma_spec_merge_stable(l, r.drop_first(), v);
        assert(seq![r[0]].drop_last() =~= Seq::<u32>::empty());
        assert(r =~= seq![r[0]] + r.drop_first());
        if r[0] == v {
            assert forall|k: int| 0 <= k < l.len() implies l[k] != v by {
                assert(l[0] <= l[k]);
            };
            lemma_occurrences_none(l, v);
        }
        assert(occurrences(spec_merge(l, r), v) =~= occurrences(l, v) + occurrences(r, v));
    }
}

/// Two arrays of the same length that agree outside a window and whose
/// windows hold the same values hold the same values overall.
proof fn lemma_patch_multiset(s1: Seq<u32>, s2: Seq<u32>, lo: int, hi: int)
    requires
        s1.len() == s2.len(),
        0 <= lo <= hi <= s1.len(),
        s1.subrange(lo, hi).to_multiset() == s2.subrange(lo, hi).to_multiset(),
        forall|k: int| 0 <= k < s1.len() && !(lo <= k < hi) ==> s1[k] == s2[k],
    ensures
        s1.to_multiset() == s2.to_multiset(),
{
    broadcast use vstd::seq_lib::lemma_multiset_commutative;
    broadcast use vstd::multiset::group_multiset_axioms;
    broadcast use vstd::multiset::group_multiset_properties;

    let n: int = s1.len() as int;
    let a = s1.subrange(0, lo);
    let r = s1.subrange(hi, n);
    let m1 = s1.subrange(lo, hi);
    let m2 = s2.subrange(lo, hi);
    assert(s1 =~= a + m1 + r);
    assert(s2 =~= a + m2 + r);
    assert((a + m1 + r).to_multiset() == a.to_multiset().add(m1.to_multiset()).add(
        r.to_multiset(),
    ));
    assert((a + m2 + r).to_multiset() == a.to_multiset().add(m2.to_multiset()).add(
        r.to_multiset(),
    ));
    assert(s1.to_multiset() =~= s2.to_multiset());
}

/// Merge the two ascending runs `[left ..= mid]` and `[mid+1 ..= right]` of
/// the array in place, showing a frame for each element as it is placed
/// (with a short tone for the smaller candidate when sound is on).
pub fn merge(
    array: &mut Vec<u32>,
    left: usize,
    mid: usize,
    right: usize,
    use_sound: bool,
    steps: &mut Vec<Step>,
)
    requires
        left <= mid < right < old(array)@.len(),
    ensures
        final(array)@.len() == old(array)@.len(),
        final(array)@.subrange(left as int, right as int + 1) == spec_merge(
            old(array)@.subrange(left as int, mid as int + 1),
            old(array)@.subrange(mid as int + 1, right as int + 1),
        ),
        forall|k: int| 0 <= k < old(array)@.len() && !(left <= k <= right) ==> final(array)@[k]
            == old(array)@[k],
        final(array)@.to_multiset() == old(array)@.to_multiset(),
        extends_trace(
            old(steps)@,
            final(steps)@,
            old(array)@,
            final(array)@,
            old(array)@.len() as nat,
            !use_sound,
        ),
{
    let ghost t0 = steps@;
    let ghost s0 = array@;
    let n: usize = array.len();
    let n1: usize = mid - left + 1;
    let n2: usize = right - mid;
    proof {
        lemma_extends_refl(t0, s0, n as nat, !use_sound);
    }
    let mut left_run: Vec<u32> = Vec::new();
    for t in 0..n1
        invariant
            n1 == mid - left + 1,
            left <= mid < right < n,
            n == array@.len(),
            array@ == s0,
            left_run@ == s0.subrange(left as int, left as int + t),
    {
        left_run.push(array[left + t]);
        proof {
            assert(left_run@ =~= s0.subrange(left as int, left as int + t + 1));
        }
    }
    let mut right_run: Vec<u32> = Vec::new();
    for t in 0..n2
        invariant
            n2 == right - mid,
            left <= mid < right < n,
            n == array@.len(),
            array@ == s0,
            right_run@ == s0.subrange(mid as int + 1, mid as int + 1 + t),
    {
        right_run.push(array[mid + 1 + t]);
        proof {
            assert(right_run@ =~= s0.subrange(mid as int + 1, mid as int + 1 + t + 1));
        }
    }
    let ghost lseq = left_run@;
    let ghost rseq = right_run@;
    proof {
        assert(lseq == s0.subrange(left as int, mid as int + 1));
        assert(rseq == s0.subrange(mid as int + 1, right as int + 1));
        assert(lseq.skip(0) =~= lseq);
        assert(rseq.skip(0) =~= rseq);
        assert(array@.subrange(left as int, left as int) =~= Seq::<u32>::empty());
        assert(Seq::<u32>::empty() + spec_merge(lseq, rseq) =~= spec_merge(lseq, rseq));
    }
    let mut i: usize = 0;
    let mut j: usize = 0;
    let mut k: usize = left;
    while i < n1 && j < n2
        invariant
            i <= n1,
            j <= n2,
            k == left + i + j,
            n1 == lseq.len(),
            n2 == rseq.len(),
            left + n1 + n2 == right + 1,
            left <= mid < right < n,
            n == array@.len(),
            s0.len() == n,
            left_run@ == lseq,
            right_run@ == rseq,
            spec_merge(lseq, rseq) == array@.subrange(left as int, k as int) + spec_merge(
                lseq.skip(i as int),
                rseq.skip(j as int),
            ),
            forall|kk: int| 0 <= kk < n && !(left <= kk <= right) ==> array@[kk] == s0[kk],
            extends_trace(t0, steps@, s0, array@, n as nat, !use_sound),
        decreases n1 + n2 - i - j,
    {
        let lv: u32 = left_run[i];
        let rv: u32 = right_run[j];
        let tone: Option<Tone> = if use_sound {
            let smaller: u32 = if lv <= rv {
                lv
            } else {
                rv
            };
            Some(Tone { value: smaller, millis: 5 })
        } else {
            None
        };
        let placed: u32 = if lv <= rv {
            lv
        } else {
            rv
        };
        let write_step = Step::Apply(SortOp::Write(k, placed));
        proof {
            lemma_extends_push(t0, steps@, s0, array@, n as nat, !use_sound, write_step);
        }
        let ghost pre = array@;
        array[k] = placed;
        steps.push(write_step);
        let frame = Frame { highlight_a: Some(k), highlight_b: None, sorted_from: None, tone };
        proof {
            lemma_extends_push(t0, steps@, s0, array@, n as nat, !use_sound, Step::Show(frame));
        }
        steps.push(Step::Show(frame));
        proof {
            let ii = i as int;
            let jj = j as int;
            let ls = lseq.skip(ii);
            let rs = rseq.skip(jj);
            assert(ls[0] == lseq[ii]);
            assert(rs[0] == rseq[jj]);
            assert(array@.subrange(left as int, k as int) =~= pre.subrange(
                left as int,
                k as int,
            ));
            assert(array@.subrange(left as int, k as int + 1) =~= array@.subrange(
                left as int,
                k as int,
            ).push(placed));
            if lv <= rv {
                assert(ls.drop_first() =~= lseq.skip(ii + 1));
                assert(spec_merge(ls, rs) == seq![ls[0]] + spec_merge(ls.drop_first(), rs));
                assert(array@.subrange(left as int, k as int + 1) + spec_merge(
                    lseq.skip(ii + 1),
                    rs,
                ) =~= array@.subrange(left as int, k as int) + spec_merge(ls, rs));
            } else {
                assert(rs.drop_first() =~= rseq.skip(jj + 1));
                assert(spec_merge(ls, rs) == seq![rs[0]] + spec_merge(ls, rs.drop_first()));
                assert(array@.subrange(left as int, k as int + 1) + spec_merge(
                    ls,
                    rseq.skip(jj + 1),
                ) =~= array@.subrange(left as int, k as int) + spec_merge(ls, rs));
            }
        }
        if lv <= rv {
            i += 1;
        } else {
            j += 1;
        }
        k += 1;
    }
    while i < n1
        invariant
            i <= n1,
            i < n1 ==> j == n2,
            j <= n2,
            k == left + i + j,
            n1 == lseq.len(),
            n2 == rseq.len(),
            left + n1 + n2 == right + 1,
            left <= mid < right < n,
            n == array@.len(),
            s0.len() == n,
            left_run@ == lseq,
            right_run@ == rseq,
            spec_merge(lseq, rseq) == array@.subrange(left as int, k as int) + spec_merge(
                lseq.skip(i as int),
                rseq.skip(j as int),
            ),
            forall|kk: int| 0 <= kk < n && !(left <= kk <= right) ==> array@[kk] == s0[kk],
            extends_trace(t0, steps@, s0, array@, n as nat, !use_sound),
        decreases n1 - i,
    {
        let lv: u32 = left_run[i];
        let tone: Option<Tone> = if use_sound {
            Some(Tone { value: lv, millis: 5 })
        } else {
            None
        };
        let write_step = Step::Apply(SortOp::Write(k, lv));
        proof {
            lemma_extends_push(t0, steps@, s0, array@, n as nat, !use_sound, write_step);
        }
        let ghost pre = array@;
        array[k] = lv;
        steps.push(write_step);
        let frame = Frame { highlight_a: Some(k), highlight_b: None, sorted_from: None, tone };
        proof {
            lemma_extends_push(t0, steps@, s0, array@, n as nat, !use_sound, Step::Show(frame));
        }
        steps.push(Step::Show(frame));
        proof {
            let ii = i as int;
            let ls = lseq.skip(ii);
            let rs = rseq.skip(j as int);
            assert(rs =~= Seq::<u32>::empty());
            assert(ls[0] == lseq[ii]);
            assert(ls.drop_first() =~= lseq.skip(ii + 1));
            assert(spec_merge(ls, rs) == ls);
            assert(ls =~= seq![ls[0]] + ls.drop_first());
            assert(spec_merge(lseq.skip(ii + 1), rs) == lseq.skip(ii + 1));
            assert(array@.subrange(left as int, k as int) =~= pre.subrange(
                left as int,
                k as int,
            ));
            assert(array@.subrange(left as int, k as int + 1) =~= array@.subrange(
                left as int,
                k as int,
            ).push(lv));
            assert(array@.subrange(left as int, k as int + 1) + spec_merge(
                lseq.skip(ii + 1),
                rs,
            ) =~= array@.subrange(left as int, k as int) + spec_merge(ls, rs));
        }
        i += 1;
        k += 1;
    }
    while j < n2
        invariant
            i == n1,
            j <= n2,
            k == left + i + j,
            n1 == lseq.len(),
            n2 == rseq.len(),
            left + n1 + n2 == right + 1,
            left <= mid < right < n,
            n == array@.len(),
            s0.len() == n,
            left_run@ == lseq,
            right_run@ == rseq,
            spec_merge(lseq, rseq) == array@.subrange(left as int, k as int) + spec_merge(
                lseq.skip(i as int),
                rseq.skip(j as int),
            ),
            forall|kk: int| 0 <= kk < n && !(left <= kk <= right) ==> array@[kk] == s0[kk],
            extends_trace(t0, steps@, s0, array@, n as nat, !use_sound),
        decreases n2 - j,
    {
        let rv: u32 = right_run[j];
        let tone: Option<Tone> = if use_sound {
            Some(Tone { value: rv, millis: 5 })
        } else {
            None
        };
        let write_step = Step::Apply(SortOp::Write(k, rv));
        proof {
            lemma_extends_push(t0, steps@, s0, array@, n as nat, !use_sound, write_step);
        }
        let ghost pre = array@;
        array[k] = rv;
        steps.push(write_step);
        let frame = Frame { highlight_a: Some(k), highlight_b: None, sorted_from: None, tone };
        proof {
            lemma_extends_push(t0, steps@, s0, array@, n as nat, !use_sound, Step::Show(frame));
        }
        steps.push(Step::Show(frame));
        proof {
            let ii = i as int;
            let jj = j as int;
            let ls = lseq.skip(ii);
            let rs = rseq.skip(jj);
            assert(ls =~= Seq::<u32>::empty());
            assert(rs[0] == rseq[jj]);
            assert(rs.drop_first() =~= rseq.skip(jj + 1));
            assert(spec_merge(ls, rs) == rs);
            assert(rs =~= seq![rs[0]] + rs.drop_first());
            assert(spec_merge(ls, rseq.skip(jj + 1)) == rseq.skip(jj + 1));
            assert(array@.subrange(left as int, k as int) =~= pre.subrange(
                left as int,
                k as int,
            ));
            assert(array@.subrange(left as int, k as int + 1) =~= array@.subrange(
                left as int,
                k as int,
            ).push(rv));
            assert(array@.subrange(left as int, k as int + 1) + spec_merge(
                ls,
                rseq.skip(jj + 1),
            ) =~= array@.subrange(left as int, k as int) + spec_merge(ls, rs));
        }
        j += 1;
        k += 1;
    }
    proof {
        assert(lseq.skip(i as int) =~= Seq::<u32>::empty());
        assert(rseq.skip(j as int) =~= Seq::<u32>::empty());
        assert(spec_merge(lseq.skip(i as int), rseq.skip(j as int)) == Seq::<u32>::empty());
        assert(array@.subrange(left as int, k as int) + Seq::<u32>::empty() =~= array@.subrange(
            left as int,
            k as int,
        ));
        assert(array@.subrange(left as int, right as int + 1) == spec_merge(lseq, rseq));
        lemma_spec_merge_multiset(lseq, rseq);
        assert(s0.subrange(left as int, right as int + 1) =~= lseq + rseq);
        vstd::seq_lib::lemma_multiset_commutative(lseq, rseq);
        lemma_patch_multiset(array@, s0, left as int, right as int + 1);
    }
}

/// Recursive Merge Sort over a window of the array: divide at the midpoint,
/// sort both halves, then merge them in place.
pub fn merge_sort_recursive(
    array: &mut Vec<u32>,
    left: usize,
    right: usize,
    use_sound: bool,
    steps: &mut Vec<Step>,
)
    requires
        left <= right < old(array)@.len(),
    ensures
        final(array)@.len() == old(array)@.len(),
        final(array)@.to_multiset() == old(array)@.to_multiset(),
        forall|k: int| 0 <= k < old(array)@.len() && !(left <= k <= right) ==> final(array)@[k]
            == old(array)@[k],
        forall|k1: int, k2: int| left <= k1 <= k2 <= right ==> final(array)@[k1]
            <= final(array)@[k2],
        extends_trace(
            old(steps)@,
            final(steps)@,
            old(array)@,
            final(array)@,
            old(array)@.len() as nat,
            !use_sound,
        ),
    decreases right - left,
{
    let ghost t0 = steps@;
    let ghost s0 = array@;
    let n: usize = array.len();
    proof {
        lemma_extends_refl(t0, s0, n as nat, !use_sound);
    }
    if left < right {
        let mid: usize = left + (right - left) / 2;
        merge_sort_recursive(array, left, mid, use_sound, steps);
        let ghost s1 = array@;
        let ghost t1 = steps@;
        merge_sort_recursive(array, mid + 1, right, use_sound, steps);
        let ghost s2 = array@;
        let ghost t2 = steps@;
        proof {
            lemma_extends_trans(t0, t1, t2, s0, s1, s2, n as nat, !use_sound);
        }
        merge(array, left, mid, right, use_sound, steps);
        proof {
            lemma_extends_trans(t0, t2, steps@, s0, s2, array@, n as nat, !use_sound);
            let lhalf = s2.subrange(left as int, mid as int + 1);
            let rhalf = s2.subrange(mid as int + 1, right as int + 1);
            assert(sorted(lhalf)) by {
                assert(forall|k: int| left <= k <= mid ==> s2[k] == s1[k]);
                assert(forall|k: int| 0 <= k < lhalf.len() ==> lhalf[k] == s2[left + k]);
            };
            assert(sorted(rhalf)) by {
                assert(forall|k: int| 0 <= k < rhalf.len() ==> rhalf[k] == s2[mid + 1 + k]);
            };
            lemma_spec_merge_sorted(lhalf, rhalf);
            let merged = array@.subrange(left as int, right as int + 1);
            assert(merged == spec_merge(lhalf, rhalf));
            assert forall|k1: int, k2: int| left <= k1 <= k2 <= right implies array@[k1]
                <= array@[k2] by {
                assert(array@[k1] == merged[k1 - left]);
                assert(array@[k2] == merged[k2 - left]);
            };
        }
    }
}

/// Merge Sort, instrumented for visualization: an empty array returns at
/// once with an empty trace; otherwise the array is sorted recursively and
/// a closing frame marks the whole array as sorted. The returned trace
/// replays the input contents into the sorted output.
pub fn merge_sort_visualized(array: &mut Vec<u32>, use_sound: bool) -> (steps: Vec<Step>)
    ensures
        final(array)@.len() == old(array)@.len(),
        final(array)@.to_multiset() == old(array)@.to_multiset(),
        sorted(final(array)@),
        replay(old(array)@, steps@) == final(array)@,
        trace_wf(steps@, final(array)@.len() as nat),
        !use_sound ==> silent(steps@),
        old(array)@.len() == 0 ==> steps@.len() == 0,
        old(array)@.len() > 0 ==> steps@.len() > 0 && steps@.last() == (Step::Show(
            Frame { highlight_a: None, highlight_b: None, sorted_from: Some(0), tone: None },
        )),
{
    let n: usize = array.len();
    let mut steps: Vec<Step> = Vec::new();
    proof {
        assert(steps@ =~= Seq::<Step>::empty());
        lemma_extends_refl(Seq::<Step>::empty(), old(array)@, n as nat, !use_sound);
    }
    if n == 0 {
        return steps;
    }
    merge_sort_recursive(array, 0, n - 1, use_sound, &mut steps);
    let frame = Frame { highlight_a: None, highlight_b: None, sorted_from: Some(0), tone: None };
    proof {
        lemma_extends_push(
            Seq::<Step>::empty(),
            steps@,
            old(array)@,
            array@,
            n as nat,
            !use_sound,
            Step::Show(frame),
        );
    }
    steps.push(Step::Show(frame));
    proof {
        assert(steps@.skip(0) =~= steps@);
    }
    steps
}

} // verus!
