//! Completion statistics: counters keyed by day and by month, and the
//! streak computed by walking backward from today while every day has
//! a completion. The backward step uses the fixed thirty-day-month
//! approximation of `dates`.

use vstd::prelude::*;
use vstd::pervasive::VecAdditionalExecFns;

use crate::dates::Date;
use crate::dates::date_valid;
use crate::dates::check_date_valid;
use crate::dates::prev_day;
use crate::dates::spec_prev_day;
use crate::dates::lemma_prev_day_code;

verus! {

/// A date's key in the day tally.
pub open spec fn day_code(d: Date) -> int {
    d.year * 10000 + d.month * 100 + d.day
}

/// A date's key in the month tally.
pub open spec fn month_code(d: Date) -> int {
    d.year * 100 + d.month
}

/// A date's key in the day tally, as the key type.
pub open spec fn day_key(d: Date) -> u32 {
    (d.year * 10000 + d.month * 100 + d.day) as u32
}

/// A date's key in the month tally, as the key type.
pub open spec fn month_key_num(d: Date) -> u32 {
    (d.year * 100 + d.month) as u32
}

/// The day tally key, computed.
pub fn day_code_of(d: &Date) -> (r: u32)
    requires
        date_valid(*d),
    ensures
        r == day_code(*d),
        r == day_key(*d),
{
    d.year * 10000 + d.month * 100 + d.day
}

/// The month tally key, computed.
pub fn month_code_of(d: &Date) -> (r: u32)
    requires
        date_valid(*d),
    ensures
        r == month_code(*d),
        r == month_key_num(*d),
{
    d.year * 100 + d.month
}

/// A tally: counts keyed by a number, one entry per key.
pub struct Tally {
    pub entries: Vec<(u32, u64)>,
}

/// The count a key maps to, zero when absent.
pub open spec fn tally_get(s: Seq<(u32, u64)>, k: u32) -> u64
    decreases s.len(),
{
    if s.len() == 0 {
        0
    } else if s[0].0 == k {
        s[0].1
    } else {
        tally_get(s.drop_first(), k)
    }
}

/// Keys occur at most once.
pub open spec fn tally_wf(s: Seq<(u32, u64)>) -> bool {
    forall|i: int, j: int| 0 <= i < j < s.len() ==> (#[trigger] s[i]).0 != (#[trigger] s[j]).0
}

proof fn lemma_get_push_absent(s: Seq<(u32, u64)>, p: (u32, u64), k: u32)
    requires
        forall|i: int| 0 <= i < s.len() ==> (#[trigger] s[i]).0 != k,
    ensures
        tally_get(s.push(p), k) == if p.0 == k {
            p.1
        } else {
            0u64
        },
    decreases s.len(),
{
    if s.len() == 0 {
        assert(s.push(p)[0] == p);
        assert(s.push(p).drop_first() =~= Seq::<(u32, u64)>::empty());
        assert(tally_get(Seq::<(u32, u64)>::empty(), k) == 0);
        if p.0 == k {
            assert(tally_get(s.push(p), k) == p.1);
        } else {
            assert(tally_get(s.push(p), k) == tally_get(Seq::<(u32, u64)>::empty(), k));
        }
    } else {
        assert(s.push(p)[0] == s[0]);
        assert(s.push(p).drop_first() =~= s.drop_first().push(p));
        lemma_get_push_absent(s.drop_first(), p, k);
        assert(tally_get(s, k) == tally_get(s.drop_first(), k));
    }
}

proof fn lemma_get_push_other(s: Seq<(u32, u64)>, p: (u32, u64), k: u32)
    requires
        p.0 != k,
    ensures
        tally_get(s.push(p), k) == tally_get(s, k),
    decreases s.len(),
{
    if s.len() == 0 {
        assert(s.push(p)[0] == p);
        assert(s.push(p).drop_first() =~= Seq::<(u32, u64)>::empty());
        assert(tally_get(Seq::<(u32, u64)>::empty(), k) == 0);
    } else {
        assert(s.push(p)[0] == s[0]);
        assert(s.push(p).drop_first() =~= s.drop_first().push(p));
        lemma_get_push_other(s.drop_first(), p, k);
    }
}

proof fn lemma_get_update(s: Seq<(u32, u64)>, j: int, v: u64, k: u32)
    requires
        0 <= j < s.len(),
        forall|i: int| 0 <= i < j ==> (#[trigger] s[i]).0 != s[j].0,
    ensures
        tally_get(s.update(j, (s[j].0, v)), s[j].0) == v,
        k != s[j].0 ==> tally_get(s.update(j, (s[j].0, v)), k) == tally_get(s, k),
    decreases s.len(),
{
    let s2 = s.update(j, (s[j].0, v));
    if j == 0 {
        assert(s2[0] == (s[0].0, v));
        assert(s2.drop_first() =~= s.drop_first());
    } else {
        assert(s2[0] == s[0]);
        assert(s2.drop_first() =~= s.drop_first().update(j - 1, (s[j].0, v)));
        assert(s.drop_first()[j - 1] == s[j]);
        assert(forall|i: int|
            0 <= i < j - 1 ==> (#[trigger] s.drop_first()[i]).0 != s.drop_first()[j - 1].0);
        lemma_get_update(s.drop_first(), j - 1, v, k);
        assert(s[0].0 != s[j].0);
    }
}

/// A positive count means the key is present with that count.
proof fn lemma_get_positive_exists(s: Seq<(u32, u64)>, k: u32)
    requires
        tally_get(s, k) > 0,
    ensures
        exists|i: int| 0 <= i < s.len() && (#[trigger] s[i]).0 == k && s[i].1 > 0,
    decreases s.len(),
{
    if s.len() > 0 && s[0].0 != k {
        lemma_get_positive_exists(s.drop_first(), k);
        let i = choose|i: int|
            0 <= i < s.drop_first().len() && (#[trigger] s.drop_first()[i]).0 == k
                && s.drop_first()[i].1 > 0;
        assert(s[i + 1].0 == k && s[i + 1].1 > 0);
    }
}

impl Tally {
    pub open spec fn well_formed(&self) -> bool {
        tally_wf(self.entries@)
    }

    /// An empty tally: every key counts zero.
    pub fn new() -> (r: Tally)
        ensures
            r.well_formed(),
            r.entries@.len() == 0,
            forall|k: u32| tally_get(r.entries@, k) == 0,
    {
        Tally { entries: Vec::new() }
    }

    /// The count stored for a key.
    pub fn get(&self, key: u32) -> (r: u64)
        ensures
            r == tally_get(self.entries@, key),
    {
        let s = &self.entries;
        let mut i: usize = 0;
        proof {
            assert(s@.skip(0) =~= s@);
        }
        while i < s.len()
            invariant
                0 <= i <= s@.len(),
                s@ == self.entries@,
                tally_get(s@, key) == tally_get(s@.skip(i as int), key),
            decreases s@.len() - i,
        {
            let ghost t = s@.skip(i as int);
            proof {
                assert(t[0] == s@[i as int]);
                assert(t.drop_first() =~= s@.skip(i as int + 1));
            }
            if s[i].0 == key {
                let v = s[i].1;
                proof {
                    assert(t[0].0 == key);
                    assert(tally_get(t, key) == t[0].1);
                    assert(tally_get(s@, key) == s@[i as int].1);
                    assert(v == tally_get(self.entries@, key));
                }
                return v;
            }
            i += 1;
        }
        proof {
            assert(s@.skip(s@.len() as int) =~= Seq::<(u32, u64)>::empty());
        }
        0
    }

    /// Adds to a key's count, creating the entry if absent. Every
    /// other key keeps its count.
    pub fn add(&mut self, key: u32, amount: u64)
        requires
            old(self).well_formed(),
            tally_get(old(self).entries@, key) + amount <= u64::MAX,
        ensures
            final(self).well_formed(),
            tally_get(final(self).entries@, key) == tally_get(old(self).entries@, key) + amount,
            forall|k: u32|
                k != key ==> tally_get(final(self).entries@, k) == tally_get(
                    old(self).entries@,
                    k,
                ),
            final(self).entries@.len() <= old(self).entries@.len() + 1,
    {
        let ghost s0 = self.entries@;
        let n = self.entries.len();
        let mut i: usize = 0;
        proof {
            assert(s0.skip(0) =~= s0);
        }
        while i < n
            invariant
                0 <= i <= n,
                n == self.entries@.len(),
                self.entries@ == s0,
                tally_get(s0, key) == tally_get(s0.skip(i as int), key),
                forall|j: int| 0 <= j < i ==> (#[trigger] s0[j]).0 != key,
                old(self).well_formed(),
                tally_get(old(self).entries@, key) + amount <= u64::MAX,
                s0 == old(self).entries@,
            decreases n - i,
        {
            let ghost t = s0.skip(i as int);
            proof {
                assert(t[0] == s0[i as int]);
                assert(t.drop_first() =~= s0.skip(i as int + 1));
            }
            let e = self.entries[i];
            if e.0 == key {
                proof {
                    assert(tally_get(s0.skip(i as int), key) == s0[i as int].1);
                    assert(tally_get(s0, key) == e.1);
                }
                let nv = e.1 + amount;
                self.entries.set(i, (e.0, nv));
                proof {
                    lemma_get_update(s0, i as int, nv, key);
                    assert forall|k: u32| k != key implies tally_get(self.entries@, k)
                        == tally_get(s0, k) by {
                        lemma_get_update(s0, i as int, nv, k);
                    }
                }
                return ;
            }
            i += 1;
        }
        proof {
            assert(s0.skip(s0.len() as int) =~= Seq::<(u32, u64)>::empty());
            assert(tally_get(s0, key) == 0);
        }
        self.entries.push((key, amount));
        proof {
            lemma_get_push_absent(s0, (key, amount), key);
            assert forall|k: u32| k != key implies tally_get(self.entries@, k) == tally_get(
                s0,
                k,
            ) by {
                lemma_get_push_other(s0, (key, amount), k);
            }
            assert forall|i2: int, j2: int|
                0 <= i2 < j2 < self.entries@.len() implies (#[trigger] self.entries@[i2]).0 != (
            #[trigger] self.entries@[j2]).0 by {
                if j2 < s0.len() {
                    assert(self.entries@[i2] == s0[i2] && self.entries@[j2] == s0[j2]);
                } else {
                    assert(self.entries@[i2] == s0[i2]);
                    assert(self.entries@[j2].0 == key);
                }
            }
        }
    }
}

/// The persisted counters and streaks.
pub struct TodoStats {
    pub total_completed: u64,
    pub current_streak: u64,
    pub longest_streak: u64,
    pub completions_by_month: Tally,
    pub completions_by_day: Tally,
}

/// The mathematical value of the stats.
#[verifier::ext_equal]
pub struct StatsModel {
    pub total_completed: u64,
    pub current_streak: u64,
    pub longest_streak: u64,
    pub months: Seq<(u32, u64)>,
    pub days: Seq<(u32, u64)>,
}

impl View for TodoStats {
    type V = StatsModel;

    open spec fn view(&self) -> StatsModel {
        StatsModel {
            total_completed: self.total_completed,
            current_streak: self.current_streak,
            longest_streak: self.longest_streak,
            months: self.completions_by_month.entries@,
            days: self.completions_by_day.entries@,
        }
    }
}

impl TodoStats {
    pub open spec fn well_formed(&self) -> bool {
        self.completions_by_month.well_formed() && self.completions_by_day.well_formed()
    }

    /// Fresh stats: all counters zero, no history.
    pub fn new() -> (r: TodoStats)
        ensures
            r.well_formed(),
            r@.total_completed == 0,
            r@.current_streak == 0,
            r@.longest_streak == 0,
            r@.months.len() == 0,
            r@.days.len() == 0,
    {
        TodoStats {
            total_completed: 0,
            current_streak: 0,
            longest_streak: 0,
            completions_by_month: Tally::new(),
            completions_by_day: Tally::new(),
        }
    }
}

/// The persisted settings and stats.
pub struct TodoMetadata {
    pub daily_limit: u64,
    pub stats: TodoStats,
}

// ---------------------------------------------------------------------
// The streak.
// ---------------------------------------------------------------------
/// How many tally entries with a positive count lie at or before a
/// date code: the walk's termination measure.
pub open spec fn walk_rank(s: Seq<(u32, u64)>, c: int) -> nat
    decreases s.len(),
{
    if s.len() == 0 {
        0
    } else {
        (if s[0].0 <= c && s[0].1 > 0 {
            1nat
        } else {
            0nat
        }) + walk_rank(s.drop_first(), c)
    }
}

proof fn lemma_walk_rank_mono(s: Seq<(u32, u64)>, c1: int, c2: int)
    requires
        c1 <= c2,
    ensures
        walk_rank(s, c1) <= walk_rank(s, c2),
    decreases s.len(),
{
    if s.len() > 0 {
        lemma_walk_rank_mono(s.drop_first(), c1, c2);
    }
}

proof fn lemma_walk_rank_strict(s: Seq<(u32, u64)>, i: int, c1: int, c2: int)
    requires
        0 <= i < s.len(),
        c1 < s[i].0 <= c2,
        s[i].1 > 0,
        c1 <= c2,
    ensures
        walk_rank(s, c1) < walk_rank(s, c2),
    decreases s.len(),
{
    if i == 0 {
        lemma_walk_rank_mono(s.drop_first(), c1, c2);
    } else {
        assert(s.drop_first()[i - 1] == s[i]);
        lemma_walk_rank_strict(s.drop_first(), i - 1, c1, c2);
    }
}

proof fn lemma_walk_rank_len(s: Seq<(u32, u64)>, c: int)
    ensures
        walk_rank(s, c) <= s.len(),
    decreases s.len(),
{
    if s.len() > 0 {
        lemma_walk_rank_len(s.drop_first(), c);
    }
}

/// The streak as of a day: how many consecutive days ending at that
/// day have a positive completion count, walking backward with the
/// thirty-day-month step and stopping at the calendar's edge.
pub open spec fn spec_streak(s: Seq<(u32, u64)>, d: Date) -> nat
    decreases walk_rank(s, day_code(d)),
    via spec_streak_decreases
{
    if !date_valid(d) || tally_get(s, (d.year * 10000 + d.month * 100 + d.day) as u32) == 0 {
        0
    } else {
        1 + spec_streak(s, spec_prev_day(d))
    }
}

#[via_fn]
proof fn spec_streak_decreases(s: Seq<(u32, u64)>, d: Date) {
    if date_valid(d) && tally_get(s, (d.year * 10000 + d.month * 100 + d.day) as u32) != 0 {
        let k = (d.year * 10000 + d.month * 100 + d.day) as u32;
        lemma_get_positive_exists(s, k);
        let i = choose|i: int| 0 <= i < s.len() && (#[trigger] s[i]).0 == k && s[i].1 > 0;
        lemma_prev_day_code(d);
        lemma_walk_rank_strict(s, i, day_code(spec_prev_day(d)), day_code(d));
    }
}

/// Without a completion recorded for the day itself, the streak as of
/// that day is zero, whatever earlier days hold.
pub proof fn lemma_streak_zero_without_today(s: Seq<(u32, u64)>, today: Date)
    requires
        date_valid(today),
        tally_get(s, (today.year * 10000 + today.month * 100 + today.day) as u32) == 0,
    ensures
        spec_streak(s, today) == 0,
{
}

/// With a completion today and none the day before, the streak as of
/// today is exactly one.
pub proof fn lemma_streak_one_fresh(s: Seq<(u32, u64)>, today: Date)
    requires
        date_valid(today),
        tally_get(s, day_key(today)) > 0,
        tally_get(s, day_key(spec_prev_day(today))) == 0,
    ensures
        spec_streak(s, today) == 1,
{
    lemma_prev_day_code(today);
    assert(spec_streak(s, spec_prev_day(today)) == 0);
    assert(spec_streak(s, today) == 1 + spec_streak(s, spec_prev_day(today)));
}

/// Walks backward from today while each day has a completion.
pub fn compute_streak(days: &Tally, today: &Date) -> (r: u64)
    requires
        date_valid(*today),
    ensures
        r == spec_streak(days.entries@, *today),
{
    let ghost s = days.entries@;
    let n0 = days.entries.len();
    let mut d: Date = *today;
    let mut count: u64 = 0;
    proof {
        lemma_walk_rank_len(s, day_code(*today));
    }
    while check_date_valid(&d) && days.get(day_code_of(&d)) > 0
        invariant
            days.entries@ == s,
            s.len() == n0,
            spec_streak(s, *today) == count + spec_streak(s, d),
            count + walk_rank(s, day_code(d)) <= walk_rank(s, day_code(*today)),
            walk_rank(s, day_code(*today)) <= s.len(),
        decreases walk_rank(s, day_code(d)),
    {
        proof {
            let k = (d.year * 10000 + d.month * 100 + d.day) as u32;
            lemma_get_positive_exists(s, k);
            let i = choose|i: int| 0 <= i < s.len() && (#[trigger] s[i]).0 == k && s[i].1 > 0;
            lemma_prev_day_code(d);
            lemma_walk_rank_strict(s, i, day_code(spec_prev_day(d)), day_code(d));
            assert(walk_rank(s, day_code(d)) >= 1);
            assert(count < u64::MAX);
        }
        count = count + 1;
        d = prev_day(&d);
    }
    count
}

} // verus!
