//! The schedule of a single resource: start times mapped to assignments.

use vstd::prelude::*;
use crate::request::{ReservationParameters, ReservationRequestAlternative};

verus! {

/// An assignment of alternative `.1` of request `.0`, lasting `.2` milliseconds
/// (`None`: for ever).
#[derive(Copy, Clone, Debug, PartialEq, Eq, Structural)]
pub struct Assignment(pub usize, pub usize, pub Option<i64>);

/// Keys of `s` are strictly increasing.
pub open spec fn sorted_keys(s: Seq<(i64, Assignment)>) -> bool {
    forall|i: int, j: int| 0 <= i < j < s.len() ==> s[i].0 < s[j].0
}

/// The map from start time to assignment held by the entry list `s`.
pub open spec fn entries_map(s: Seq<(i64, Assignment)>) -> Map<i64, Assignment> {
    Map::new(
        |k: i64| exists|i: int| 0 <= i < s.len() && s[i].0 == k,
        |k: i64| s[choose|i: int| 0 <= i < s.len() && s[i].0 == k].1,
    )
}

/// The entries of `s` that start strictly before `t`.
pub open spec fn entries_before(s: Seq<(i64, Assignment)>, t: i64) -> Seq<(i64, Assignment)> {
    s.filter(starts_before(t))
}

/// The entry starts strictly before `t`.
pub open spec fn starts_before(t: i64) -> spec_fn((i64, Assignment)) -> bool {
    |e: (i64, Assignment)| e.0 < t
}

/// The entry starts at or after `t`.
pub open spec fn starts_at_or_after(t: i64) -> spec_fn((i64, Assignment)) -> bool {
    |e: (i64, Assignment)| e.0 >= t
}

/// The entry starts within the window `w`.
pub open spec fn starts_in_window(w: (Option<int>, Option<int>)) -> spec_fn((i64, Assignment)) -> bool {
    |e: (i64, Assignment)| in_window(e.0 as int, w)
}

/// The lower edge of the window of possible conflicts for a reservation whose
/// earliest start is `e`: the start of the entry just before `e` if that entry
/// still runs at `e` (or never ends), else `e` itself.
pub open spec fn adjusted_earliest(s: Seq<(i64, Assignment)>, e: i64) -> int {
    let before = entries_before(s, e);
    if before.len() == 0 {
        e as int
    } else {
        let last = before.last();
        match last.1.2 {
            Some(d) => if last.0 + d > e { last.0 as int } else { e as int },
            None => last.0 as int,
        }
    }
}

/// The window `[lower, upper)` of start times that may conflict with a
/// reservation of `p` (`None`: unbounded on that side).
pub open spec fn conflict_window(s: Seq<(i64, Assignment)>, p: ReservationParameters) -> (Option<int>, Option<int>) {
    let upper = match (p.start_time.latest_start, p.duration) {
        (Some(l), Some(d)) => Some(l + d),
        _ => None,
    };
    match (p.start_time.latest_start, p.start_time.earliest_start) {
        (Some(_), Some(e)) => (Some(adjusted_earliest(s, e)), upper),
        (Some(_), None) => (None, upper),
        (None, Some(e)) => (Some(adjusted_earliest(s, e)), None),
        (None, None) => (None, None),
    }
}

/// `t` lies in the window `w`.
pub open spec fn in_window(t: int, w: (Option<int>, Option<int>)) -> bool {
    &&& (w.0 matches Some(lo) ==> lo <= t)
    &&& (w.1 matches Some(hi) ==> t < hi)
}

/// The window `w` is not inverted.
pub open spec fn window_ordered(w: (Option<int>, Option<int>)) -> bool {
    (w.0 is Some && w.1 is Some) ==> w.0.unwrap() <= w.1.unwrap()
}

/// Represents a single resource's schedule.
#[derive(Debug)]
pub struct ReservationSchedule {
    schedule: Vec<(i64, Assignment)>,
}

impl View for ReservationSchedule {
    type V = Seq<(i64, Assignment)>;

    closed spec fn view(&self) -> Seq<(i64, Assignment)> {
        self.schedule@
    }
}

proof fn lemma_filter_step<A>(s: Seq<A>, p: spec_fn(A) -> bool, i: int)
    requires
        0 <= i < s.len(),
    ensures
        s.take(i + 1).filter(p) == if p(s[i]) { s.take(i).filter(p).push(s[i]) } else { s.take(i).filter(p) },
{
    reveal_with_fuel(Seq::<_>::filter, 1);
    assert(s.take(i + 1).drop_last() =~= s.take(i));
}

proof fn lemma_filter_all<A>(s: Seq<A>, p: spec_fn(A) -> bool)
    ensures
        s.take(s.len() as int).filter(p) == s.filter(p),
{
    assert(s.take(s.len() as int) =~= s);
}

impl ReservationSchedule {
    #[verifier::type_invariant]
    spec fn well_formed(self) -> bool {
        sorted_keys(self.schedule@)
    }

    /// An empty schedule.
    pub fn new() -> (r: Self)
        ensures
            r@ == Seq::<(i64, Assignment)>::empty(),
    {
        Self { schedule: Vec::new() }
    }

    /// Number of entries.
    pub fn len(&self) -> (r: usize)
        ensures
            r == self@.len(),
    {
        self.schedule.len()
    }

    /// The `i`-th entry in start-time order.
    pub fn entry(&self, i: usize) -> (r: (i64, Assignment))
        requires
            i < self@.len(),
        ensures
            r == self@[i as int],
    {
        self.schedule[i]
    }

    /// Schedules alternative `index.1` of request `index.0` to start at `start`
    /// for `duration`, replacing any assignment that starts at the same time.
    pub fn insert(&mut self, index: (usize, usize), duration: Option<i64>, start: i64)
        ensures
            sorted_keys(final(self)@),
            entries_map(final(self)@) == entries_map(old(self)@).insert(start, Assignment(index.0, index.1, duration)),
    {
        proof { use_type_invariant(&*self); }
        let a = Assignment(index.0, index.1, duration);
        let ghost s = self.schedule@;
        let mut i: usize = 0;
        while i < self.schedule.len() && self.schedule[i].0 < start
            invariant
                s == self.schedule@,
                sorted_keys(s),
                i <= s.len(),
                forall|j: int| 0 <= j < i ==> s[j].0 < start,
            decreases s.len() - i,
        {
            i = i + 1;
        }
        let mut v = Vec::new();
        std::mem::swap(&mut v, &mut self.schedule);
        if i < v.len() && v[i].0 == start {
            v.set(i, (start, a));
            proof {
                let t = v@;
                assert(sorted_keys(t));
                let m_old = entries_map(s);
                let m_new = entries_map(t);
                assert forall|k: i64| #[trigger] m_new.dom().contains(k) == m_old.insert(start, a).dom().contains(k) by {
                    if m_old.insert(start, a).dom().contains(k) {
                        if k == start {
                            assert(t[i as int].0 == k);
                        } else {
                            let j = choose|j: int| 0 <= j < s.len() && s[j].0 == k;
                            assert(t[j].0 == k);
                        }
                    }
                    if m_new.dom().contains(k) {
                        let j = choose|j: int| 0 <= j < t.len() && t[j].0 == k;
                        if k != start { assert(s[j].0 == k); }
                    }
                }
                assert forall|k: i64| #[trigger] m_new.dom().contains(k) implies m_new[k] == m_old.insert(start, a)[k] by {
                    let j = choose|j: int| 0 <= j < t.len() && t[j].0 == k;
                    if k == start {
                        assert(j == i as int);
                    } else {
                        assert(s[j].0 == k);
                        let j2 = choose|j2: int| 0 <= j2 < s.len() && s[j2].0 == k;
                        assert(j2 == j);
                    }
                }
                assert(m_new =~= m_old.insert(start, a));
            }
        } else {
            v.insert(i, (start, a));
            proof {
                let t = v@;
                assert forall|x: int, y: int| 0 <= x < y < t.len() implies t[x].0 < t[y].0 by {
                    if y < i { } else if y == i { } else if x < i { } else if x == i { } else { }
                }
                let m_old = entries_map(s);
                let m_new = entries_map(t);
                assert forall|k: i64| #[trigger] m_new.dom().contains(k) == m_old.insert(start, a).dom().contains(k) by {
                    if m_old.insert(start, a).dom().contains(k) {
                        if k == start {
                            assert(t[i as int].0 == k);
                        } else {
                            let j = choose|j: int| 0 <= j < s.len() && s[j].0 == k;
                            if j < i { assert(t[j].0 == k); } else { assert(t[j + 1].0 == k); }
                        }
                    }
                    if m_new.dom().contains(k) {
                        let j = choose|j: int| 0 <= j < t.len() && t[j].0 == k;
                        if j < i { assert(s[j].0 == k); } else if j > i { assert(s[j - 1].0 == k); }
                    }
                }
                assert forall|k: i64| #[trigger] m_new.dom().contains(k) implies m_new[k] == m_old.insert(start, a)[k] by {
                    let j = choose|j: int| 0 <= j < t.len() && t[j].0 == k;
                    if k == start {
                        assert(j == i as int);
                    } else if j < i {
                        assert(s[j].0 == k);
                        let j2 = choose|j2: int| 0 <= j2 < s.len() && s[j2].0 == k;
                        assert(j2 == j);
                    } else {
                        assert(s[j - 1].0 == k);
                        let j2 = choose|j2: int| 0 <= j2 < s.len() && s[j2].0 == k;
                        assert(j2 == j - 1);
                    }
                }
                assert(m_new =~= m_old.insert(start, a));
            }
        }
        self.schedule = v;
    }

    /// Drops every entry that starts before `time`.
    pub fn garbage_collect(&mut self, time: i64)
        ensures
            final(self)@ == old(self)@.filter(starts_at_or_after(time)),
    {
        proof { use_type_invariant(&*self); }
        let ghost s = self.schedule@;
        let ghost p = starts_at_or_after(time);
        let mut kept: Vec<(i64, Assignment)> = Vec::new();
        let mut i: usize = 0;
        while i < self.schedule.len()
            invariant
                s == self.schedule@,
                sorted_keys(s),
                i <= s.len(),
                p == starts_at_or_after(time),
                kept@ == s.take(i as int).filter(p),
                sorted_keys(kept@),
                forall|j: int| 0 <= j < kept@.len() ==> exists|m: int| 0 <= m < i && #[trigger] kept@[j] == s[m],
            decreases s.len() - i,
        {
            proof { lemma_filter_step(s, p, i as int); }
            let e = self.schedule[i];
            if e.0 >= time {
                proof {
                    assert forall|j: int| 0 <= j < kept@.len() implies kept@[j].0 < e.0 by {
                        let m = choose|m: int| 0 <= m < i && kept@[j] == s[m];
                    }
                }
                kept.push(e);
            }
            i = i + 1;
        }
        proof { lemma_filter_all(s, p); }
        self.schedule = kept;
    }

    /// The entries whose start times may conflict with `reservation`, in start
    /// time order.
    pub fn check_potential_conflict(&self, reservation: &ReservationRequestAlternative) -> (r: Vec<(i64, Assignment)>)
        requires
            window_ordered(conflict_window(self@, reservation.parameters)),
        ensures
            r@ == self@.filter(starts_in_window(conflict_window(self@, reservation.parameters))),
    {
        proof { use_type_invariant(self); }
        let ghost s = self.schedule@;
        let ghost w = conflict_window(s, reservation.parameters);
        let earliest_time = reservation.parameters.start_time.earliest_start;
        let latest_time = reservation.parameters.start_time.latest_start;
        let lower: Option<i128> = match earliest_time {
            Some(e) => Some(self.adjusted_earliest(e) as i128),
            None => None,
        };
        let upper: Option<i128> = match (latest_time, reservation.parameters.duration) {
            (Some(l), Some(d)) => Some(l as i128 + d as i128),
            _ => None,
        };
        let (lo, hi) = match (latest_time, earliest_time) {
            (Some(_), Some(_)) => (lower, upper),
            (Some(_), None) => (None, upper),
            (None, Some(_)) => (lower, None),
            (None, None) => (None, None),
        };
        let ghost p = starts_in_window(w);
        let mut found: Vec<(i64, Assignment)> = Vec::new();
        let mut i: usize = 0;
        while i < self.schedule.len()
            invariant
                s == self.schedule@,
                i <= s.len(),
                p == starts_in_window(w),
                w == conflict_window(s, reservation.parameters),
                found@ == s.take(i as int).filter(p),
                lo matches Some(x) ==> w.0 == Some(x as int),
                lo is None ==> w.0 is None,
                hi matches Some(x) ==> w.1 == Some(x as int),
                hi is None ==> w.1 is None,
            decreases s.len() - i,
        {
            proof { lemma_filter_step(s, p, i as int); }
            let e = self.schedule[i];
            let above = match lo { Some(x) => x <= e.0 as i128, None => true };
            let below = match hi { Some(x) => (e.0 as i128) < x, None => true };
            if above && below {
                found.push(e);
            }
            i = i + 1;
        }
        proof { lemma_filter_all(s, p); }
        found
    }

    /// Exec form of [`adjusted_earliest`].
    fn adjusted_earliest(&self, e: i64) -> (r: i64)
        ensures
            r as int == adjusted_earliest(self@, e),
    {
        proof { use_type_invariant(self); }
        let ghost s = self.schedule@;
        let ghost p = starts_before(e);
        let mut last: Option<(i64, Assignment)> = None;
        let mut i: usize = 0;
        while i < self.schedule.len()
            invariant
                s == self.schedule@,
                i <= s.len(),
                p == starts_before(e),
                last is None ==> s.take(i as int).filter(p).len() == 0,
                last matches Some(x) ==> s.take(i as int).filter(p).len() > 0 && s.take(i as int).filter(p).last() == x,
            decreases s.len() - i,
        {
            proof { lemma_filter_step(s, p, i as int); }
            let x = self.schedule[i];
            if x.0 < e {
                last = Some(x);
            }
            i = i + 1;
        }
        proof { lemma_filter_all(s, p); }
        match last {
            None => e,
            Some((t, a)) => match a.2 {
                Some(d) => if (t as i128) + (d as i128) > (e as i128) { t } else { e },
                None => t,
            },
        }
    }
}

} // verus!
