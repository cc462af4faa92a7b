//! Trains, their base schedules, and the unrolling of a periodic schedule
//! over a visible time window.
use vstd::prelude::*;

use crate::error::LayoutError;
use crate::types::{StationID, Time};

verus! {

/// How often a train runs.
#[derive(Debug, Clone, Copy, PartialEq, Eq, Structural)]
pub enum TrainFrequency {
    /// The train departs once every `Time` units.
    Repeating(Time),
}

/// One stop of a base schedule.
#[derive(Debug, Clone, Copy, PartialEq, Eq, Structural)]
pub struct ScheduleEntry {
    pub arrival: Time,
    pub departure: Time,
    pub station: StationID,
}

impl ScheduleEntry {
    pub open spec fn arr(self) -> int {
        self.arrival.sec()
    }

    pub open spec fn dep(self) -> int {
        self.departure.sec()
    }
}

/// Each entry departs no earlier than it arrives, and each arrives no earlier
/// than the previous one departed and later than the previous one arrived
/// (the arrival is the key of an entry).
pub open spec fn entries_ordered(s: Seq<ScheduleEntry>) -> bool {
    &&& forall|i: int| 0 <= i < s.len() ==> #[trigger] s[i].arr() <= s[i].dep()
    &&& forall|i: int| 0 < i < s.len() ==> s[i - 1].dep() <= #[trigger] s[i].arr()
    &&& forall|i: int, j: int| 0 <= i < j < s.len() ==> s[i].arr() < s[j].arr()
}

/// A base schedule: ordered as above.
pub open spec fn schedule_wf(s: Seq<ScheduleEntry>) -> bool {
    entries_ordered(s)
}

/// A train: a name, a frequency and a base schedule sorted by arrival.
#[derive(Debug, Clone)]
pub struct Train {
    pub name: String,
    pub frequency: TrainFrequency,
    pub schedule: Vec<ScheduleEntry>,
}

impl Train {
    pub open spec fn wf(&self) -> bool {
        schedule_wf(self.schedule@)
    }

    /// Builds a train from its entries in order, rejecting a schedule whose
    /// times run backwards or that has two entries with one arrival.
    #[verifier::rlimit(40)]
    pub fn new(name: String, frequency: TrainFrequency, entries: Vec<ScheduleEntry>) -> (r: Result<
        Train,
        LayoutError,
    >)
        ensures
            r is Ok <==> entries_ordered(entries@),
            r matches Ok(t) ==> t.wf() && t.schedule@ == entries@ && t.name@
                == name@ && t.frequency == frequency,
            r matches Err(e) ==> e == (LayoutError::InvalidSchedule { train: name }),
    {
        let mut schedule: Vec<ScheduleEntry> = Vec::new();
        let mut i: usize = 0;
        while i < entries.len()
            invariant
                i <= entries.len(),
                entries_ordered(entries@.subrange(0, i as int)),
                schedule@ == entries@.subrange(0, i as int),
            decreases entries.len() - i,
        {
            let e = entries[i];
            let ghost prefix = entries@.subrange(0, i as int);
            let ghost next = entries@.subrange(0, i + 1);
            assert(next.drop_last() =~= prefix);
            if e.departure.0 < e.arrival.0 {
                proof {
                    lemma_violation(entries@, i as int);
                }
                return Err(LayoutError::InvalidSchedule { train: name });
            }
            if i > 0 && (e.arrival.0 < entries[i - 1].departure.0 || e.arrival.0 <= entries[i - 1].arrival.0) {
                proof {
                    lemma_violation(entries@, i as int);
                }
                return Err(LayoutError::InvalidSchedule { train: name });
            }
            schedule.push(e);
            assert(schedule@ =~= next);
            proof {
                lemma_ordered_extend(entries@, i as int);
            }
            i = i + 1;
        }
        assert(entries@.subrange(0, entries.len() as int) == entries@);
        Ok(Train { name, frequency, schedule })
    }
}

} // verus!

verus! {

proof fn lemma_violation(s: Seq<ScheduleEntry>, i: int)
    requires
        0 <= i < s.len(),
        s[i].arr() > s[i].dep() || (i > 0 && (s[i - 1].dep() > s[i].arr() || s[i - 1].arr() >= s[i].arr())),
    ensures
        !entries_ordered(s),
{
    if s[i].arr() > s[i].dep() {
        assert(!(s[i].arr() <= s[i].dep()));
    } else if s[i - 1].dep() > s[i].arr() {
        assert(!(s[i - 1].dep() <= s[i].arr()));
    } else {
        assert(!(s[i - 1].arr() < s[i].arr()));
        assert(!(forall|a: int, b: int| 0 <= a < b < s.len() ==> s[a].arr() < s[b].arr()));
    }
}

proof fn lemma_ordered_extend(s: Seq<ScheduleEntry>, i: int)
    requires
        0 <= i < s.len(),
        entries_ordered(s.subrange(0, i)),
        s[i].arr() <= s[i].dep(),
        i > 0 ==> s[i - 1].dep() <= s[i].arr() && s[i - 1].arr() < s[i].arr(),
    ensures
        entries_ordered(s.subrange(0, i + 1)),
{
    let p = s.subrange(0, i);
    let t = s.subrange(0, i + 1);
    assert forall|k: int| 0 < k < t.len() implies t[k - 1].dep() <= #[trigger] t[k].arr() by {
        if k < i {
            assert(t[k] == p[k] && t[k - 1] == p[k - 1]);
        }
    }
    assert forall|k: int| 0 <= k < t.len() implies #[trigger] t[k].arr() <= t[k].dep() by {
        if k < i {
            assert(t[k] == p[k]);
        }
    }
    assert forall|a: int, b: int| 0 <= a < b < t.len() implies t[a].arr() < t[b].arr() by {
        if b < i {
            assert(t[a] == p[a] && t[b] == p[b]);
        } else if a < i - 1 {
            assert(t[a] == p[a] && t[i - 1] == p[i - 1]);
            assert(p[a].arr() < p[i - 1].arr());
        }
    }
}

} // verus!

verus! {

/// One entry of an unrolled schedule: a base entry shifted by a whole number
/// of periods.
#[derive(Debug, Clone, Copy, PartialEq, Eq, Structural)]
pub struct IterateScheduleEntry {
    /// The shifted arrival.
    pub arrival: Time,
    /// The shifted departure.
    pub departure: Time,
    /// True on the first entry of each repetition.
    pub clear: bool,
    /// The base entry.
    pub original_entry: ScheduleEntry,
}

/// The first index from `i` on whose arrival is at least `key`, or the length.
pub open spec fn first_from(s: Seq<ScheduleEntry>, key: int, i: int) -> int
    decreases s.len() - i,
{
    if i < 0 || i >= s.len() {
        s.len() as int
    } else if s[i].arr() >= key {
        i
    } else {
        first_from(s, key, i + 1)
    }
}

/// The first index whose arrival is at least `key`, or the length.
pub open spec fn first_at_or_after(s: Seq<ScheduleEntry>, key: int) -> int {
    first_from(s, key, 0)
}

/// The base indices `[from, to)` yielded for the window `[lo, hi]` in base
/// time: the entry before `lo`, the entries arriving in `[lo, hi)`, and the
/// first entry at or after `hi` unless the last of those departs after `hi`.
pub open spec fn window_range(s: Seq<ScheduleEntry>, lo: int, hi: int) -> (int, int) {
    let cl = first_at_or_after(s, lo);
    let ch = first_at_or_after(s, hi);
    let from = if cl > 0 {
        cl - 1
    } else {
        0
    };
    let to = if ch < s.len() && !(ch > cl && s[ch - 1].dep() > hi) {
        ch + 1
    } else {
        ch
    };
    (from, to)
}

/// The entries of the repetition shifted by `o`, as
/// `(arrival, departure, clear, base index)`.
pub open spec fn repeat_items(s: Seq<ScheduleEntry>, start: int, end: int, o: int) -> Seq<
    (int, int, bool, int),
> {
    let r = window_range(s, start - o, end - o);
    Seq::new(
        (r.1 - r.0) as nat,
        |i: int| (s[r.0 + i].arr() + o, s[r.0 + i].dep() + o, i == 0, r.0 + i),
    )
}

/// The first `count` repetitions, the first shifted by `o0`, each next one by
/// one more period.
pub open spec fn repeats(
    s: Seq<ScheduleEntry>,
    start: int,
    end: int,
    period: int,
    o0: int,
    count: nat,
) -> Seq<(int, int, bool, int)>
    decreases count,
{
    if count == 0 {
        Seq::empty()
    } else {
        repeats(s, start, end, period, o0, (count - 1) as nat) + repeat_items(
            s,
            start,
            end,
            o0 + (count - 1) * period,
        )
    }
}

/// Repetitions of the schedule that end at or after the window's start.
pub open spec fn past_repeats(s: Seq<ScheduleEntry>, start: int, period: int) -> int {
    (s.last().dep() - start) / period
}

/// Repetitions of the schedule that start at or before the window's end.
pub open spec fn future_repeats(s: Seq<ScheduleEntry>, end: int, period: int) -> int {
    (end - s[0].arr()) / period
}

/// The base schedule does not lie wholly before or after the window.
pub open spec fn overlaps_window(s: Seq<ScheduleEntry>, start: int, end: int) -> bool {
    s.len() > 0 && s[0].arr() <= end && s.last().dep() >= start
}

/// The whole unrolled schedule for the window `[start, end]` and a positive
/// period.
pub open spec fn unroll(s: Seq<ScheduleEntry>, start: int, end: int, period: int) -> Seq<
    (int, int, bool, int),
> {
    let past = past_repeats(s, start, period);
    let future = future_repeats(s, end, period);
    repeats(s, start, end, period, -(past * period), (past + future + 1) as nat)
}

pub open spec fn fits_time(t: int) -> bool {
    i32::MIN <= t <= i32::MAX
}

/// Every shifted time fits in a `Time`.
pub open spec fn all_fit(u: Seq<(int, int, bool, int)>) -> bool {
    forall|i: int| 0 <= i < u.len() ==> fits_time(#[trigger] u[i].0) && fits_time(u[i].1)
}

/// The entries that `u` describes.
pub open spec fn unrolled_entries(s: Seq<ScheduleEntry>, u: Seq<(int, int, bool, int)>) -> Seq<IterateScheduleEntry> {
    Seq::new(
        u.len(),
        |i: int|
            IterateScheduleEntry {
                arrival: Time(u[i].0 as i32),
                departure: Time(u[i].1 as i32),
                clear: u[i].2,
                original_entry: s[u[i].3],
            },
    )
}

/// The first `k1` repetitions are a prefix of the first `k2`.
pub proof fn lemma_repeats_prefix(
    s: Seq<ScheduleEntry>,
    start: int,
    end: int,
    period: int,
    o0: int,
    k1: nat,
    k2: nat,
)
    requires
        k1 <= k2,
    ensures
        repeats(s, start, end, period, o0, k1).len() <= repeats(s, start, end, period, o0, k2).len(),
        forall|i: int|
            0 <= i < repeats(s, start, end, period, o0, k1).len() ==> #[trigger] repeats(
                s,
                start,
                end,
                period,
                o0,
                k1,
            )[i] == repeats(s, start, end, period, o0, k2)[i],
    decreases k2,
{
    if k1 < k2 {
        lemma_repeats_prefix(s, start, end, period, o0, k1, (k2 - 1) as nat);
    }
}

pub(crate) proof fn lemma_first_monotone(s: Seq<ScheduleEntry>, lo: int, hi: int, i: int)
    requires
        lo <= hi,
        0 <= i,
    ensures
        first_from(s, lo, i) <= first_from(s, hi, i),
        i <= first_from(s, lo, i) <= s.len() || i > s.len(),
    decreases s.len() - i,
{
    if i < s.len() {
        lemma_first_monotone(s, lo, hi, i + 1);
    }
}

fn first_at_or_after_exec(s: &Vec<ScheduleEntry>, key: i64) -> (r: usize)
    ensures
        r as int == first_at_or_after(s@, key as int),
        r <= s@.len(),
{
    let mut i: usize = 0;
    while i < s.len() && (s[i].arrival.0 as i64) < key
        invariant
            i <= s@.len(),
            first_at_or_after(s@, key as int) == first_from(s@, key as int, i as int),
        decreases s@.len() - i,
    {
        i = i + 1;
    }
    i
}

fn window_range_exec(s: &Vec<ScheduleEntry>, lo: i64, hi: i64) -> (r: (usize, usize))
    ensures
        r.0 as int == window_range(s@, lo as int, hi as int).0,
        r.1 as int == window_range(s@, lo as int, hi as int).1,
        r.1 <= s@.len(),
{
    let cl = first_at_or_after_exec(s, lo);
    let ch = first_at_or_after_exec(s, hi);
    let from = if cl > 0 {
        cl - 1
    } else {
        0
    };
    let to = if ch < s.len() && !(ch > cl && (s[ch - 1].departure.0 as i64) > hi) {
        ch + 1
    } else {
        ch
    };
    (from, to)
}

impl Train {
    /// The schedule unrolled over the window `[start_time, end_time]`:
    /// `None` when the schedule is empty or lies wholly outside the window.
    pub fn iter_schedule(&self, start_time: Time, end_time: Time) -> (r: Result<
        Option<Vec<IterateScheduleEntry>>,
        LayoutError,
    >)
        requires
            self.wf(),
        ensures
            start_time.sec() > end_time.sec() ==> r == Err::<
                Option<Vec<IterateScheduleEntry>>,
                LayoutError,
            >(LayoutError::StartAfterEnd { start: start_time, end: end_time }),
            start_time.sec() <= end_time.sec() && !overlaps_window(
                self.schedule@,
                start_time.sec(),
                end_time.sec(),
            ) ==> r matches Ok(None),
            start_time.sec() <= end_time.sec() && overlaps_window(
                self.schedule@,
                start_time.sec(),
                end_time.sec(),
            ) ==> ({
                let p = self.period();
                let u = unroll(self.schedule@, start_time.sec(), end_time.sec(), p);
                &&& p == 0 ==> (r matches Err(LayoutError::ZeroPeriod { train }) && train@
                    == self.name@)
                &&& p != 0 && !all_fit(u) ==> (r matches Err(LayoutError::TimeOutOfRange { train })
                    && train@ == self.name@)
                &&& p != 0 && all_fit(u) ==> (r matches Ok(Some(v)) && v@ == unrolled_entries(
                    self.schedule@,
                    u,
                ))
            }),
    {
        if start_time.0 > end_time.0 {
            return Err(LayoutError::StartAfterEnd { start: start_time, end: end_time });
        }
        let n = self.schedule.len();
        if n == 0 || self.schedule[0].arrival.0 > end_time.0 || self.schedule[n
            - 1].departure.0 < start_time.0 {
            return Ok(None);
        }
        let TrainFrequency::Repeating(interval) = self.frequency;
        let mut it = match TrainScheduleRepeatingIterator::new(self, start_time, end_time, interval) {
            Ok(it) => it,
            Err(e) => {
                return Err(e);
            },
        };
        let ghost sch = self.schedule@;
        let ghost u = unroll(sch, start_time.sec(), end_time.sec(), self.period());
        assert(it.full() == u);
        let mut v: Vec<IterateScheduleEntry> = Vec::new();
        let mut done = false;
        assert(u.subrange(0, 0) =~= Seq::<(int, int, bool, int)>::empty());
        assert(v@ =~= unrolled_entries(sch, u.subrange(0, 0)));
        while !done
            invariant
                it.wf(),
                it.base() == sch,
                it.full() == u,
                it.position() <= u.len(),
                v@ == unrolled_entries(sch, u.subrange(0, it.position() as int)),
                all_fit(u.subrange(0, it.position() as int)),
                !done ==> !it.stopped(),
                done ==> (it.stopped() || it.position() == u.len()),
                it.stopped() ==> it.position() < u.len() && !(fits_time(u[it.position() as int].0) && fits_time(
                    u[it.position() as int].1,
                )),
            decreases u.len() - it.position() + (if done { 0int } else { 1int }),
        {
            let ghost k = it.position();
            match it.next() {
                Some(e) => {
                    v.push(e);
                    proof {
                        let w = u.subrange(0, (k + 1) as int);
                        assert(w.drop_last() =~= u.subrange(0, k as int));
                        assert(v@ =~= unrolled_entries(sch, w));
                        assert forall|i: int| 0 <= i < w.len() implies fits_time(#[trigger] w[i].0) && fits_time(w[i].1) by {
                            if i < k {
                                assert(w[i] == u.subrange(0, k as int)[i]);
                            }
                        }
                    }
                },
                None => {
                    done = true;
                },
            }
        }
        if it.overflowed {
            proof {
                assert(!all_fit(u)) by {
                    let q = it.position() as int;
                    assert(!(fits_time(u[q].0) && fits_time(u[q].1)));
                }
            }
            return Err(LayoutError::TimeOutOfRange { train: self.name.clone() });
        }
        assert(u.subrange(0, u.len() as int) =~= u);
        Ok(Some(v))
    }

    /// The repeating period, made positive.
    pub open spec fn period(&self) -> int {
        let TrainFrequency::Repeating(t) = self.frequency;
        if t.sec() < 0 {
            -t.sec()
        } else {
            t.sec()
        }
    }
}

} // verus!

verus! {

/// Walks the unrolled schedule one entry at a time: repetition `k` shifts
/// the base schedule by `o0 + k * period`, and `j` runs over the base
/// indices that the repetition yields.
pub struct TrainScheduleRepeatingIterator<'a> {
    schedule: &'a Vec<ScheduleEntry>,
    start_time: Time,
    end_time: Time,
    interval: i64,
    o0: i64,
    total: i64,
    k: i64,
    from: usize,
    j: usize,
    to: usize,
    overflowed: bool,
    active: bool,
    emitted: Ghost<nat>,
}

impl<'a> TrainScheduleRepeatingIterator<'a> {
    /// The whole sequence this iterator walks: empty when the window is
    /// reversed or the base schedule lies wholly outside it.
    pub closed spec fn full(&self) -> Seq<(int, int, bool, int)> {
        if self.walks() {
            unroll(self.schedule@, self.start_time.sec(), self.end_time.sec(), self.interval as int)
        } else {
            Seq::empty()
        }
    }

    /// The window is in order and the base schedule overlaps it.
    pub closed spec fn walks(&self) -> bool {
        self.start_time.sec() <= self.end_time.sec() && overlaps_window(
            self.schedule@,
            self.start_time.sec(),
            self.end_time.sec(),
        )
    }

    /// The positive period.
    pub closed spec fn period(&self) -> int {
        self.interval as int
    }

    /// The visible window.
    pub closed spec fn window(&self) -> (Time, Time) {
        (self.start_time, self.end_time)
    }

    /// The base schedule.
    pub closed spec fn base(&self) -> Seq<ScheduleEntry> {
        self.schedule@
    }

    /// How many entries it has handed out.
    pub closed spec fn position(&self) -> nat {
        self.emitted@
    }

    /// It stopped at an entry whose shifted time does not fit in a `Time`.
    pub closed spec fn stopped(&self) -> bool {
        self.overflowed
    }

    pub closed spec fn wf(&self) -> bool {
        let s = self.schedule@;
        let st = self.start_time.sec();
        let en = self.end_time.sec();
        let p = self.interval as int;
        let past = past_repeats(s, st, p);
        let future = future_repeats(s, en, p);
        let o = self.o0 + self.k * p;
        let r = window_range(s, st - o, en - o);
        &&& schedule_wf(s)
        &&& 0 < p <= 0x8000_0000
        &&& self.active == self.walks()
        &&& !self.active ==> self.emitted@ == 0 && !self.overflowed
        &&& self.active ==> self.walking()
    }

    closed spec fn walking(&self) -> bool {
        let s = self.schedule@;
        let st = self.start_time.sec();
        let en = self.end_time.sec();
        let p = self.interval as int;
        let past = past_repeats(s, st, p);
        let future = future_repeats(s, en, p);
        let o = self.o0 + self.k * p;
        let r = window_range(s, st - o, en - o);
        &&& schedule_wf(s)
        &&& st <= en
        &&& overlaps_window(s, st, en)
        &&& 0 < p <= 0x8000_0000
        &&& 0 <= past * p <= s.last().dep() - st
        &&& 0 <= future * p <= en - s[0].arr()
        &&& past >= 0 && future >= 0
        &&& self.o0 == -(past * p)
        &&& self.total == past + future
        &&& 0 <= self.k <= self.total
        &&& r.0 <= self.j <= self.to
        &&& self.from as int == r.0
        &&& self.to as int == r.1
        &&& self.to <= s.len()
        &&& self.emitted@ == repeats(s, st, en, p, self.o0 as int, self.k as nat).len() + (self.j - r.0)
        &&& self.emitted@ <= self.full().len()
        &&& self.overflowed ==> self.emitted@ < self.full().len() && !(fits_time(self.full()[self.emitted@ as int].0)
            && fits_time(self.full()[self.emitted@ as int].1))
    }

    /// Starts the walk over a base schedule that overlaps the window, for a
    /// positive period.
    fn walk(schedule: &'a Vec<ScheduleEntry>, start_time: Time, end_time: Time, interval: i64) -> (r: Self)
        requires
            schedule_wf(schedule@),
            start_time.sec() <= end_time.sec(),
            overlaps_window(schedule@, start_time.sec(), end_time.sec()),
            0 < interval <= 0x8000_0000,
        ensures
            r.wf(),
            r.base() == schedule@,
            r.period() == interval as int,
            r.window() == (start_time, end_time),
            r.full() == unroll(schedule@, start_time.sec(), end_time.sec(), interval as int),
            r.position() == 0,
            !r.stopped(),
    {
        let ghost (s, st, en, p) = (schedule@, start_time.sec(), end_time.sec(), interval as int);
        let n = schedule.len();
        let first_arrival = schedule[0].arrival.0 as i64;
        let last_departure = schedule[n - 1].departure.0 as i64;
        let start = start_time.0 as i64;
        let end = end_time.0 as i64;
        let past: i64 = (last_departure - start) / interval;
        let future: i64 = (end - first_arrival) / interval;
        proof {
            assert(0 <= past * interval <= last_departure - start) by (nonlinear_arith)
                requires
                    interval > 0,
                    last_departure - start >= 0,
                    past as int == (last_departure - start) as int / (interval as int),
            ;
            assert(0 <= future * interval <= end - first_arrival) by (nonlinear_arith)
                requires
                    interval > 0,
                    end - first_arrival >= 0,
                    future as int == (end - first_arrival) as int / (interval as int),
            ;
            assert(past <= past * interval && future <= future * interval) by (nonlinear_arith)
                requires
                    interval > 0,
                    past >= 0,
                    future >= 0,
            ;
        }
        let o0: i64 = -(past * interval);
        let (from, to) = window_range_exec(schedule, start - o0, end - o0);
        proof {
            lemma_first_monotone(s, st - o0, en - o0, 0);
            lemma_repeats_prefix(s, st, en, p, o0 as int, 0, (past + future + 1) as nat);
            assert(repeats(s, st, en, p, o0 as int, 0).len() == 0);
            assert(o0 + 0 * p == o0);
        }
        TrainScheduleRepeatingIterator {
            schedule,
            start_time,
            end_time,
            interval,
            o0,
            total: past + future,
            k: 0,
            from,
            j: from,
            to,
            overflowed: false,
            active: true,
            emitted: Ghost(0),
        }
    }

    /// Starts the unrolling of the train's schedule over the window, with
    /// the period made positive; a zero period is rejected.
    pub fn new(train: &'a Train, start_time: Time, end_time: Time, interval: Time) -> (r: Result<Self, LayoutError>)
        requires
            train.wf(),
        ensures
            r is Err <==> interval.sec() == 0,
            r matches Err(e) ==> (e matches LayoutError::ZeroPeriod { train: name } && name@ == train.name@),
            r matches Ok(it) ==> {
                &&& it.wf()
                &&& it.base() == train.schedule@
                &&& it.period() == (if interval.sec() < 0 { -interval.sec() } else { interval.sec() })
                &&& it.window() == (start_time, end_time)
                &&& it.full() == (if start_time.sec() <= end_time.sec() && overlaps_window(
                    train.schedule@,
                    start_time.sec(),
                    end_time.sec(),
                ) {
                    unroll(train.schedule@, start_time.sec(), end_time.sec(), it.period())
                } else {
                    Seq::empty()
                })
                &&& it.position() == 0
                &&& !it.stopped()
            },
    {
        if interval.0 == 0 {
            return Err(LayoutError::ZeroPeriod { train: train.name.clone() });
        }
        let period: i64 = if interval.0 < 0 {
            -(interval.0 as i64)
        } else {
            interval.0 as i64
        };
        let n = train.schedule.len();
        if start_time.0 <= end_time.0 && n > 0 && train.schedule[0].arrival.0 <= end_time.0
            && train.schedule[n - 1].departure.0 >= start_time.0 {
            Ok(Self::walk(&train.schedule, start_time, end_time, period))
        } else {
            Ok(TrainScheduleRepeatingIterator {
                schedule: &train.schedule,
                start_time,
                end_time,
                interval: period,
                o0: 0,
                total: 0,
                k: 0,
                from: 0,
                j: 0,
                to: 0,
                overflowed: false,
                active: false,
                emitted: Ghost(0),
            })
        }
    }

    /// The next entry, or `None` at the end of the sequence or at an entry
    /// whose shifted time does not fit in a `Time` (after which it stays
    /// stopped).
    #[verifier::rlimit(80)]
    pub fn next(&mut self) -> (r: Option<IterateScheduleEntry>)
        requires
            old(self).wf(),
        ensures
            final(self).wf(),
            final(self).base() == old(self).base(),
            final(self).full() == old(self).full(),
            old(self).stopped() ==> r is None && final(self).stopped() && final(self).position() == old(self).position(),
            !old(self).stopped() && old(self).position() == old(self).full().len() ==> r is None && !final(self).stopped()
                && final(self).position() == old(self).position(),
            !old(self).stopped() && old(self).position() < old(self).full().len() ==> ({
                let x = old(self).full()[old(self).position() as int];
                if fits_time(x.0) && fits_time(x.1) {
                    &&& r == Some(
                        IterateScheduleEntry {
                            arrival: Time(x.0 as i32),
                            departure: Time(x.1 as i32),
                            clear: x.2,
                            original_entry: old(self).base()[x.3],
                        },
                    )
                    &&& !final(self).stopped()
                    &&& final(self).position() == old(self).position() + 1
                } else {
                    r is None && final(self).stopped() && final(self).position() == old(self).position()
                }
            }),
    {
        if self.overflowed || !self.active {
            return None;
        }
        let ghost (s, st, en, p) = (self.schedule@, self.start_time.sec(), self.end_time.sec(), self.interval as int);
        let ghost full = self.full();
        let ghost count = (self.total + 1) as nat;
        assert(full == repeats(s, st, en, p, self.o0 as int, count));
        let start = self.start_time.0 as i64;
        let end = self.end_time.0 as i64;
        while self.j == self.to && self.k < self.total
            invariant
                self.wf(),
                self.active,
                !self.overflowed,
                self.schedule@ == s,
                self.start_time.sec() == st,
                self.end_time.sec() == en,
                self.interval as int == p,
                start == st,
                end == en,
                self.emitted@ == old(self).emitted@,
                self.schedule == old(self).schedule,
                self.start_time == old(self).start_time,
                self.end_time == old(self).end_time,
                self.interval == old(self).interval,
                full == self.full(),
                count == self.total + 1,
            decreases self.total - self.k,
        {
            let ghost kk = self.k;
            let ghost r0 = window_range(s, st - (self.o0 + kk * p), en - (self.o0 + kk * p));
            assert(repeats(s, st, en, p, self.o0 as int, (kk + 1) as nat) == repeats(s, st, en, p, self.o0 as int, kk as nat)
                + repeat_items(s, st, en, self.o0 + kk * p));
            proof {
                assert(0 <= (self.k + 1) * self.interval <= self.total * self.interval) by (nonlinear_arith)
                    requires
                        0 <= self.k < self.total,
                        self.interval > 0,
                ;
                assert(self.total * self.interval == (past_repeats(s, st, p) + future_repeats(s, en, p)) * p);
                assert((past_repeats(s, st, p) + future_repeats(s, en, p)) * p == past_repeats(s, st, p) * p
                    + future_repeats(s, en, p) * p) by (nonlinear_arith);
            }
            self.k = self.k + 1;
            let o: i64 = self.o0 + self.k * self.interval;
            let (from, to) = window_range_exec(self.schedule, start - o, end - o);
            proof {
                lemma_first_monotone(s, st - o, en - o, 0);
                lemma_repeats_prefix(s, st, en, p, self.o0 as int, self.k as nat, count);
            }
            self.from = from;
            self.j = from;
            self.to = to;
        }
        if self.j < self.to {
            let ghost idx = self.emitted@ as int;
            let ghost kk = self.k;
            let ghost o_k = self.o0 + kk * p;
            let ghost r0 = window_range(s, st - o_k, en - o_k);
            let ghost before = repeats(s, st, en, p, self.o0 as int, kk as nat);
            let ghost items = repeat_items(s, st, en, o_k);
            let ghost after = repeats(s, st, en, p, self.o0 as int, (kk + 1) as nat);
            assert(after == before + items);
            proof {
                lemma_repeats_prefix(s, st, en, p, self.o0 as int, (kk + 1) as nat, count);
                assert(0 <= self.k * self.interval <= self.total * self.interval) by (nonlinear_arith)
                    requires
                        0 <= self.k <= self.total,
                        self.interval > 0,
                ;
                assert(self.total * self.interval == (past_repeats(s, st, p) + future_repeats(s, en, p)) * p);
                assert((past_repeats(s, st, p) + future_repeats(s, en, p)) * p == past_repeats(s, st, p) * p
                    + future_repeats(s, en, p) * p) by (nonlinear_arith);
            }
            assert(full[idx] == after[idx]);
            assert(after[idx] == items[self.j - r0.0]);
            let o: i64 = self.o0 + self.k * self.interval;
            let e = self.schedule[self.j];
            let a: i64 = e.arrival.0 as i64 + o;
            let d: i64 = e.departure.0 as i64 + o;
            if a < i32::MIN as i64 || a > i32::MAX as i64 || d < i32::MIN as i64 || d > i32::MAX as i64 {
                self.overflowed = true;
                return None;
            }
            let item = IterateScheduleEntry {
                arrival: Time(a as i32),
                departure: Time(d as i32),
                clear: self.j == self.from,
                original_entry: e,
            };
            self.j = self.j + 1;
            self.emitted = Ghost((idx + 1) as nat);
            proof {
                if self.emitted@ > full.len() {
                    assert(false);
                }
            }
            Some(item)
        } else {
            proof {
                lemma_repeats_prefix(s, st, en, p, self.o0 as int, count, count);
                assert(repeats(s, st, en, p, self.o0 as int, count) == repeats(s, st, en, p, self.o0 as int, (self.k) as nat)
                    + repeat_items(s, st, en, self.o0 + self.k * p));
            }
            None
        }
    }
}

} // verus!
