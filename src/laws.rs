//! Laws of the schedule unroller and the position axis, for every input.
use vstd::prelude::*;

use crate::train::{
    all_fit, first_at_or_after, first_from, fits_time, overlaps_window, past_repeats, future_repeats,
    repeat_items, repeats, schedule_wf, unroll, unrolled_entries, window_range, IterateScheduleEntry,
    ScheduleEntry, Train,
};
use crate::axis::axis_offset;
use crate::types::{IntervalLength, Time};

verus! {

/// In a train's schedule each entry arrives no earlier than the previous one departs.
pub proof fn lemma_schedule_order(t: &Train)
    requires
        t.wf(),
    ensures
        forall|i: int|
            0 < i < t.schedule@.len() ==> t.schedule@[i - 1].departure.sec() <= #[trigger] t.schedule@[i].arrival.sec(),
{
}

/// The unrolled entry `x` belongs to the repetition shifted by `o`.
pub open spec fn from_repeat(s: Seq<ScheduleEntry>, start: int, end: int, o: int, x: (int, int, bool, int)) -> bool {
    let r = window_range(s, start - o, end - o);
    &&& r.0 <= x.3 < r.1
    &&& 0 <= x.3 < s.len()
    &&& x.0 == s[x.3].arr() + o
    &&& x.1 == s[x.3].dep() + o
}

proof fn lemma_first_facts(s: Seq<ScheduleEntry>, key: int, i: int)
    requires
        0 <= i <= s.len(),
    ensures
        i <= first_from(s, key, i) <= s.len(),
        forall|q: int| i <= q < first_from(s, key, i) ==> #[trigger] s[q].arr() < key,
        first_from(s, key, i) < s.len() ==> s[first_from(s, key, i)].arr() >= key,
    decreases s.len() - i,
{
    if i < s.len() {
        lemma_first_facts(s, key, i + 1);
    }
}

proof fn lemma_window_bounds(s: Seq<ScheduleEntry>, lo: int, hi: int)
    requires
        lo <= hi,
    ensures
        0 <= window_range(s, lo, hi).0,
        window_range(s, lo, hi).1 <= s.len(),
        window_range(s, lo, hi).0 <= window_range(s, lo, hi).1,
{
    lemma_first_facts(s, lo, 0);
    lemma_first_facts(s, hi, 0);
    crate::train::lemma_first_monotone(s, lo, hi, 0);
}

/// `x` belongs to one of the first `count` repetitions.
pub open spec fn from_some_repeat(s: Seq<ScheduleEntry>, start: int, end: int, p: int, o0: int, count: nat, x: (int, int, bool, int)) -> bool {
    exists|k: int| 0 <= k < count && #[trigger] from_repeat(s, start, end, o0 + k * p, x)
}

/// Each element of the first `count` repetitions comes from one of them, and
/// the elements are ordered by shift, then by base index.
proof fn lemma_repeats_shape(s: Seq<ScheduleEntry>, start: int, end: int, p: int, o0: int, count: nat)
    requires
        p > 0,
        start <= end,
    ensures
        forall|i: int| #![trigger repeats(s, start, end, p, o0, count)[i]]
            0 <= i < repeats(s, start, end, p, o0, count).len() ==> from_some_repeat(s, start, end, p, o0, count, repeats(s, start, end, p, o0, count)[i]),
        forall|i1: int, i2: int|
            0 <= i1 < i2 < repeats(s, start, end, p, o0, count).len() ==> {
                let x1 = #[trigger] repeats(s, start, end, p, o0, count)[i1];
                let x2 = #[trigger] repeats(s, start, end, p, o0, count)[i2];
                (x1.0 - s[x1.3].arr() < x2.0 - s[x2.3].arr()) || (x1.0 - s[x1.3].arr() == x2.0 - s[x2.3].arr() && x1.3 < x2.3)
            },
        forall|i: int|
            0 <= i < repeats(s, start, end, p, o0, count).len() ==> (#[trigger] repeats(s, start, end, p, o0, count)[i]).0 - s[repeats(s, start, end, p, o0, count)[i].3].arr() <= o0 + (count - 1) * p,
    decreases count,
{
    if count > 0 {
        let c1 = (count - 1) as nat;
        lemma_repeats_shape(s, start, end, p, o0, c1);
        let prev = repeats(s, start, end, p, o0, c1);
        let o = o0 + c1 * p;
        let items = repeat_items(s, start, end, o);
        let u = repeats(s, start, end, p, o0, count);
        assert(u == prev + items);
        lemma_window_bounds(s, start - o, end - o);
        let r = window_range(s, start - o, end - o);
        assert forall|i: int| #![trigger u[i]] 0 <= i < u.len() implies from_some_repeat(s, start, end, p, o0, count, u[i]) by {
            if i < prev.len() {
                assert(u[i] == prev[i]);
                assert(from_some_repeat(s, start, end, p, o0, c1, prev[i]));
                let k = choose|k: int| 0 <= k < c1 && #[trigger] from_repeat(s, start, end, o0 + k * p, prev[i]);
                assert(from_repeat(s, start, end, o0 + k * p, u[i]));
                assert(0 <= k < count);
            } else {
                assert(u[i] == items[i - prev.len()]);
                let ii = i - prev.len();
                assert(0 <= ii < items.len());
                assert(u[i] == (s[r.0 + ii].arr() + o, s[r.0 + ii].dep() + o, ii == 0, r.0 + ii));
                assert(from_repeat(s, start, end, o0 + c1 * p, u[i]));
            }
        }
        assert forall|i: int| 0 <= i < u.len() implies (#[trigger] u[i]).0 - s[u[i].3].arr() <= o0 + (count - 1) * p by {
            if i < prev.len() {
                assert(u[i] == prev[i]);
                assert(o0 + (c1 - 1) * p <= o0 + (count - 1) * p) by (nonlinear_arith)
                    requires
                        p > 0,
                        c1 == count - 1,
                ;
            } else {
                assert(u[i] == items[i - prev.len()]);
            }
        }
        assert forall|i1: int, i2: int| 0 <= i1 < i2 < u.len() implies {
            let x1 = #[trigger] u[i1];
            let x2 = #[trigger] u[i2];
            (x1.0 - s[x1.3].arr() < x2.0 - s[x2.3].arr()) || (x1.0 - s[x1.3].arr() == x2.0 - s[x2.3].arr() && x1.3 < x2.3)
        } by {
            if i2 < prev.len() {
                assert(u[i1] == prev[i1] && u[i2] == prev[i2]);
            } else if i1 < prev.len() {
                assert(u[i1] == prev[i1]);
                assert(u[i2] == items[i2 - prev.len()]);
                assert(o0 + (c1 - 1) * p < o) by (nonlinear_arith)
                    requires
                        p > 0,
                        o == o0 + c1 * p,
                ;
            } else {
                assert(u[i1] == items[i1 - prev.len()] && u[i2] == items[i2 - prev.len()]);
            }
        }
    } else {
        assert(repeats(s, start, end, p, o0, count).len() == 0);
    }
}

proof fn lemma_dep_le_last(s: Seq<ScheduleEntry>, j: int)
    requires
        schedule_wf(s),
        0 <= j < s.len(),
    ensures
        s[j].dep() <= s.last().dep(),
        s[0].arr() <= s[j].arr(),
{
    if j < s.len() - 1 {
        assert(s[j].dep() <= s[j + 1].arr());
        if j + 1 < s.len() - 1 {
            assert(s[j + 1].arr() < s[s.len() - 1].arr());
        }
    }
    if j > 0 {
        assert(s[0].arr() < s[j].arr());
    }
}

/// Every unrolled entry lies within one period of the window, when no two
/// consecutive arrivals of the base schedule are more than a period apart.
pub proof fn lemma_unroll_windowing(s: Seq<ScheduleEntry>, start: int, end: int, p: int)
    requires
        schedule_wf(s),
        p > 0,
        start <= end,
        overlaps_window(s, start, end),
        forall|i: int| 0 < i < s.len() ==> #[trigger] s[i].arr() - s[i - 1].arr() <= p,
    ensures
        forall|i: int|
            0 <= i < unroll(s, start, end, p).len() ==> (#[trigger] unroll(s, start, end, p)[i]).1 >= start - p
                && unroll(s, start, end, p)[i].0 <= end + p,
{
    let past = past_repeats(s, start, p);
    let future = future_repeats(s, end, p);
    let o0 = -(past * p);
    let count = (past + future + 1) as nat;
    let u = unroll(s, start, end, p);
    assert(past >= 0 && future >= 0 && past * p <= s.last().dep() - start && future * p <= end - s[0].arr()) by (nonlinear_arith)
        requires
            p > 0,
            s.last().dep() - start >= 0,
            end - s[0].arr() >= 0,
            past == (s.last().dep() - start) / p,
            future == (end - s[0].arr()) / p,
    ;
    lemma_repeats_shape(s, start, end, p, o0, count);
    assert forall|i: int| 0 <= i < u.len() implies (#[trigger] u[i]).1 >= start - p && u[i].0 <= end + p by {
        assert(from_some_repeat(s, start, end, p, o0, count, u[i]));
        let k = choose|k: int| 0 <= k < count && #[trigger] from_repeat(s, start, end, o0 + k * p, u[i]);
        let o = o0 + k * p;
        assert(o0 <= o <= future * p) by (nonlinear_arith)
            requires
                0 <= k < past + future + 1,
                o == o0 + k * p,
                o0 == -(past * p),
                p > 0,
        ;
        let lo = start - o;
        let hi = end - o;
        let cl = first_at_or_after(s, lo);
        let ch = first_at_or_after(s, hi);
        lemma_first_facts(s, lo, 0);
        lemma_first_facts(s, hi, 0);
        let j = u[i].3;
        lemma_dep_le_last(s, j);
        if j < cl {
            // the anchor before the window
            assert(j == cl - 1);
            if j + 1 < s.len() {
                assert(s[j + 1].arr() - s[j].arr() <= p);
            }
        } else if j >= ch {
            // the anchor after the window
            assert(j == ch);
            if j > 0 {
                assert(s[j].arr() - s[j - 1].arr() <= p);
                assert(s[j - 1].arr() < hi);
            }
        }
    }
}

/// Every base entry whose instance shifted by `m` periods overlaps the
/// window appears in the unrolled schedule exactly once with that shift,
/// when the base schedule itself overlaps the window.
pub proof fn lemma_unroll_complete(s: Seq<ScheduleEntry>, start: int, end: int, p: int, j: int, m: int)
    requires
        schedule_wf(s),
        p > 0,
        start <= end,
        overlaps_window(s, start, end),
        0 <= j < s.len(),
        s[j].arr() + m * p <= end,
        s[j].dep() + m * p >= start,
    ensures
        exists|i: int|
            0 <= i < unroll(s, start, end, p).len() && (#[trigger] unroll(s, start, end, p)[i]).3 == j
                && unroll(s, start, end, p)[i].0 == s[j].arr() + m * p
                && unroll(s, start, end, p)[i].1 == s[j].dep() + m * p,
        forall|i1: int, i2: int|
            0 <= i1 < unroll(s, start, end, p).len() && 0 <= i2 < unroll(s, start, end, p).len()
                && (#[trigger] unroll(s, start, end, p)[i1]).3 == j && (#[trigger] unroll(s, start, end, p)[i2]).3 == j
                && unroll(s, start, end, p)[i1].0 == s[j].arr() + m * p
                && unroll(s, start, end, p)[i2].0 == s[j].arr() + m * p ==> i1 == i2,
{
    let past = past_repeats(s, start, p);
    let future = future_repeats(s, end, p);
    let o0 = -(past * p);
    let count = (past + future + 1) as nat;
    let u = unroll(s, start, end, p);
    let o = m * p;
    lemma_dep_le_last(s, j);
    assert(-past <= m <= future) by (nonlinear_arith)
        requires
            p > 0,
            past == (s.last().dep() - start) / p,
            future == (end - s[0].arr()) / p,
            s[j].dep() <= s.last().dep(),
            s[0].arr() <= s[j].arr(),
            s[j].arr() + m * p <= end,
            s[j].dep() + m * p >= start,
    ;
    let k = m + past;
    assert(o0 + k * p == o) by (nonlinear_arith)
        requires
            o0 == -(past * p),
            k == m + past,
            o == m * p,
    ;
    let lo = start - o;
    let hi = end - o;
    let cl = first_at_or_after(s, lo);
    let ch = first_at_or_after(s, hi);
    lemma_first_facts(s, lo, 0);
    lemma_first_facts(s, hi, 0);
    crate::train::lemma_first_monotone(s, lo, hi, 0);
    let r = window_range(s, lo, hi);
    // j lies in the range that the repetition yields
    if s[j].arr() < lo {
        if j >= cl {
            if j > cl {
                assert(s[cl].arr() < s[j].arr());
            }
        }
        if j + 1 < cl {
            assert(s[j].dep() <= s[j + 1].arr());
        }
        assert(j == cl - 1);
    } else if s[j].arr() < hi {
        if j < cl {
        }
        if j >= ch {
            if j > ch {
                assert(s[ch].arr() < s[j].arr());
            }
        }
    } else {
        if ch < j {
            assert(s[ch].arr() < s[j].arr());
        }
        assert(j == ch);
        if j > 0 {
            assert(s[j - 1].dep() <= s[j].arr());
        }
    }
    assert(r.0 <= j < r.1);
    let before = repeats(s, start, end, p, o0, k as nat);
    let items = repeat_items(s, start, end, o);
    let after = repeats(s, start, end, p, o0, (k + 1) as nat);
    assert(after == before + items);
    assert(k + 1 <= count);
    crate::train::lemma_repeats_prefix(s, start, end, p, o0, (k + 1) as nat, count);
    let idx = before.len() + (j - r.0);
    assert(after[idx] == items[j - r.0]);
    assert(u[idx] == after[idx]);
    lemma_repeats_shape(s, start, end, p, o0, count);
    assert forall|i1: int, i2: int|
        0 <= i1 < u.len() && 0 <= i2 < u.len() && (#[trigger] u[i1]).3 == j && (#[trigger] u[i2]).3 == j
            && u[i1].0 == s[j].arr() + m * p && u[i2].0 == s[j].arr() + m * p implies i1 == i2 by {
        if i1 < i2 {
            assert(false);
        } else if i2 < i1 {
            assert(false);
        }
    }
}

/// Positions along the axis never decrease from one drawn station to the next.
pub proof fn lemma_axis_monotone(lengths: Seq<IntervalLength>, i: int, j: int)
    requires
        0 <= i <= j <= lengths.len(),
    ensures
        axis_offset(lengths, i) <= axis_offset(lengths, j),
    decreases j - i,
{
    if i < j {
        lemma_axis_monotone(lengths, i, j - 1);
    }
}

} // verus!

verus! {

/// The unrolled entry `i` comes from a base index of the schedule.
proof fn lemma_unroll_index(s: Seq<ScheduleEntry>, start: int, end: int, p: int, i: int)
    requires
        p > 0,
        start <= end,
        overlaps_window(s, start, end),
        0 <= i < unroll(s, start, end, p).len(),
    ensures
        0 <= unroll(s, start, end, p)[i].3 < s.len(),
{
    let past = past_repeats(s, start, p);
    let future = future_repeats(s, end, p);
    let o0 = -(past * p);
    let count = (past + future + 1) as nat;
    let u = unroll(s, start, end, p);
    lemma_repeats_shape(s, start, end, p, o0, count);
    assert(from_some_repeat(s, start, end, p, o0, count, u[i]));
    let k = choose|k: int| 0 <= k < count && #[trigger] from_repeat(s, start, end, o0 + k * p, u[i]);
}

/// Each base entry whose instance shifted by `m` periods overlaps the window
/// is among the entries that a train's unrolled schedule holds, exactly
/// once with that shift, when the base schedule overlaps the window and
/// every shifted time fits.
pub proof fn lemma_unrolled_entries_complete(
    t: &Train,
    start: Time,
    end: Time,
    v: Seq<IterateScheduleEntry>,
    j: int,
    m: int,
)
    requires
        t.wf(),
        t.period() != 0,
        start.sec() <= end.sec(),
        overlaps_window(t.schedule@, start.sec(), end.sec()),
        all_fit(unroll(t.schedule@, start.sec(), end.sec(), t.period())),
        v == unrolled_entries(t.schedule@, unroll(t.schedule@, start.sec(), end.sec(), t.period())),
        0 <= j < t.schedule@.len(),
        t.schedule@[j].arr() + m * t.period() <= end.sec(),
        t.schedule@[j].dep() + m * t.period() >= start.sec(),
    ensures
        exists|i: int|
            0 <= i < v.len() && (#[trigger] v[i]).original_entry == t.schedule@[j] && v[i].arrival.sec()
                == t.schedule@[j].arr() + m * t.period() && v[i].departure.sec() == t.schedule@[j].dep() + m
                * t.period(),
        forall|i1: int, i2: int|
            0 <= i1 < v.len() && 0 <= i2 < v.len() && (#[trigger] v[i1]).original_entry == t.schedule@[j]
                && (#[trigger] v[i2]).original_entry == t.schedule@[j] && v[i1].arrival.sec()
                == t.schedule@[j].arr() + m * t.period() && v[i2].arrival.sec() == t.schedule@[j].arr() + m
                * t.period() ==> i1 == i2,
{
    let s = t.schedule@;
    let (st, en, p) = (start.sec(), end.sec(), t.period());
    let u = unroll(s, st, en, p);
    lemma_unroll_complete(s, st, en, p, j, m);
    let i = choose|i: int|
        0 <= i < u.len() && (#[trigger] u[i]).3 == j && u[i].0 == s[j].arr() + m * p && u[i].1 == s[j].dep()
            + m * p;
    assert(fits_time(u[i].0) && fits_time(u[i].1));
    assert(v[i].original_entry == s[j] && v[i].arrival.sec() == u[i].0 && v[i].departure.sec() == u[i].1);
    assert forall|i1: int, i2: int|
        0 <= i1 < v.len() && 0 <= i2 < v.len() && (#[trigger] v[i1]).original_entry == s[j]
            && (#[trigger] v[i2]).original_entry == s[j] && v[i1].arrival.sec() == s[j].arr() + m * p
            && v[i2].arrival.sec() == s[j].arr() + m * p implies i1 == i2 by {
        lemma_unroll_index(s, st, en, p, i1);
        lemma_unroll_index(s, st, en, p, i2);
        assert(fits_time(u[i1].0) && fits_time(u[i2].0));
        let (a, b) = (u[i1].3, u[i2].3);
        assert(s[a] == s[j] && s[b] == s[j]);
        if a != j {
            if a < j {
                assert(s[a].arr() < s[j].arr());
            } else {
                assert(s[j].arr() < s[a].arr());
            }
        }
        if b != j {
            if b < j {
                assert(s[b].arr() < s[j].arr());
            } else {
                assert(s[j].arr() < s[b].arr());
            }
        }
        assert(u[i1].3 == j && u[i2].3 == j && u[i1].0 == s[j].arr() + m * p && u[i2].0 == s[j].arr() + m * p);
    }
}

} // verus!
