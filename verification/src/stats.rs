//! Review statistics aggregation.
//!
//! A [`CardStats`] is folded over one pass of cards: each card contributes
//! commutative counter increments, due-date bucket bumps, and histogram
//! observations, all evaluated against one captured `now` timestamp, so the
//! final aggregate does not depend on the order of the cards.
//!
//! Fractional quantities are fixed-point integers in millionths: intervals
//! and stabilities arrive in micro-days, difficulties in micro-units of the
//! 0-10 scale, and histogram values are millionths of the unit interval.

use vstd::arithmetic::div_mod::{
    lemma_div_is_ordered, lemma_div_multiples_vanish, lemma_div_nonincreasing,
    lemma_div_pos_is_pos,
};
use vstd::prelude::*;

use crate::card::Card;
use crate::recall::{recall_micro, spec_recall, RECALL_ONE};

verus! {

/// Coarse memory-lifecycle classification of a card.
#[derive(Debug, Clone, Hash, Eq, PartialEq, Structural)]
pub enum CardLifeCycle {
    New,
    Young,
    Mature,
}

/// An interval longer than this many micro-days makes a reviewed card
/// mature.
pub const MATURE_INTERVAL_MICRO: u64 = 21000000;

/// Seconds per calendar day.
pub const DAY_SECS: i64 = 86400;

/// The last epoch second of year 9999, the latest time the day formatter
/// accepts.
pub const MAX_EPOCH_SECS: i64 = 253402300799;

/// The last epoch day number the day formatter accepts.
pub const MAX_EPOCH_DAY: i64 = 2932896;

/// Fixed-bin histogram over the unit interval, in millionths, with `N`
/// equal-width bins.
#[derive(Debug, Clone)]
pub struct Histogram<const N: usize> {
    pub bins: Vec<u64>,
    pub count: u64,
    pub sum: u128,
}

/// Mathematical model of a [`Histogram`].
#[verifier::ext_equal]
pub ghost struct HistogramView {
    pub bins: Seq<int>,
    pub count: int,
    pub sum: int,
}

impl<const N: usize> View for Histogram<N> {
    type V = HistogramView;

    open spec fn view(&self) -> HistogramView {
        HistogramView {
            bins: self.bins@.map_values(|b: u64| b as int),
            count: self.count as int,
            sum: self.sum as int,
        }
    }
}

/// The bin a value falls into: values are clamped into the unit interval
/// and mapped to `n` equal-width bins, with the top bin closed.
pub open spec fn spec_bin_index(value: int, n: int) -> int {
    let v = if value < 0 {
        0
    } else if value > RECALL_ONE as int {
        RECALL_ONE as int
    } else {
        value
    };
    let idx = v * n / (RECALL_ONE as int);
    if idx >= n {
        n - 1
    } else {
        idx
    }
}

/// The effect of one observation on a histogram: the value's bin and the
/// running count grow by one, and the raw (unclamped) value joins the
/// running sum.
pub open spec fn spec_hist_update(h: HistogramView, value: int, n: int) -> HistogramView {
    let idx = spec_bin_index(value, n);
    HistogramView {
        bins: h.bins.update(idx, h.bins[idx] + 1),
        count: h.count + 1,
        sum: h.sum + value,
    }
}

/// An all-zero histogram model with `n` bins.
pub open spec fn spec_empty_hist(n: int) -> HistogramView {
    HistogramView { bins: Seq::<int>::new(n as nat, |_i: int| 0), count: 0, sum: 0 }
}

impl<const N: usize> Histogram<N> {
    /// Structural soundness: `N` bins, each bounded by the running count,
    /// and a running sum bounded by the count's worth of largest values.
    pub open spec fn wf(self) -> bool {
        &&& self.bins@.len() == N
        &&& N >= 1
        &&& forall|i: int| 0 <= i < self.bins@.len() ==> self.bins@[i] as int <= self.count as int
        &&& self.sum as int <= self.count as int * 0xffffffffffffffff
    }

    /// An empty histogram.
    pub fn new() -> (r: Self)
        ensures
            r@ == spec_empty_hist(N as int),
            N >= 1 ==> r.wf(),
    {
        let mut bins: Vec<u64> = Vec::new();
        while bins.len() < N
            invariant
                bins@.len() <= N,
                forall|j: int| 0 <= j < bins@.len() ==> bins@[j] == 0,
            decreases N - bins@.len(),
        {
            bins.push(0);
        }
        let r = Histogram { bins, count: 0, sum: 0 };
        proof {
            assert(r@.bins =~= spec_empty_hist(N as int).bins);
            assert(r@ =~= spec_empty_hist(N as int));
        }
        r
    }

    /// Record one observation, in millionths of the unit interval.
    pub fn update(&mut self, value: u64)
        requires
            old(self).wf(),
            old(self).count < 0xffffffffffffffff,
        ensures
            final(self).wf(),
            final(self)@ == spec_hist_update(old(self)@, value as int, N as int),
    {
        let v = if value > RECALL_ONE {
            RECALL_ONE
        } else {
            value
        };
        proof {
            assert((v as int) * (N as int) <= 1000000 * 0xffffffffffffffff) by (nonlinear_arith)
                requires
                    0 <= v as int <= 1000000,
                    0 <= N as int <= 0xffffffffffffffff,
            ;
        }
        let idx_wide = (v as u128) * (N as u128) / (RECALL_ONE as u128);
        proof {
            assert((v as int) * (N as int) <= 1000000 * (N as int)) by (nonlinear_arith)
                requires
                    0 <= v as int <= 1000000,
                    N as int >= 0,
            ;
            lemma_div_is_ordered((v as int) * (N as int), 1000000 * (N as int), 1000000);
            lemma_div_multiples_vanish(N as int, 1000000);
            assert(idx_wide as int <= N as int);
            lemma_div_pos_is_pos((v as int) * (N as int), 1000000);
        }
        let mut idx = idx_wide as usize;
        if idx >= N {
            idx = N - 1;
        }
        proof {
            assert(idx as int == spec_bin_index(value as int, N as int));
        }
        let ghost old_bins = self.bins@;
        let c = self.bins.remove(idx);
        self.bins.insert(idx, c + 1);
        proof {
            assert(self.bins@ =~= old_bins.update(idx as int, (c + 1) as u64));
            assert(self.bins@.map_values(|b: u64| b as int) =~= old_bins.map_values(
                |b: u64| b as int,
            ).update(idx as int, c as int + 1));
        }
        self.count = self.count + 1;
        proof {
            assert(old(self).sum as int + value as int <= (self.count as int)
                * 0xffffffffffffffff);
        }
        self.sum = self.sum + value as u128;
        proof {
            assert(self@ =~= spec_hist_update(old(self)@, value as int, N as int));
        }
    }

    /// The running mean of all observed values, in millionths.  A mean of
    /// zero observations is undefined, so that case is made explicit and
    /// returns nothing rather than dividing by zero.
    pub fn mean(&self) -> (r: Option<u64>)
        requires
            self.wf(),
        ensures
            match r {
                Some(m) => self@.count > 0 && m as int == self@.sum / self@.count,
                None => self@.count == 0,
            },
    {
        if self.count == 0 {
            None
        } else {
            proof {
                lemma_div_is_ordered(
                    self.sum as int,
                    self.count as int * 0xffffffffffffffff,
                    self.count as int,
                );
                lemma_div_multiples_vanish(0xffffffffffffffff, self.count as int);
                assert(self.count as int * 0xffffffffffffffff == self.count as int
                    * 0xffffffffffffffff);
                lemma_div_pos_is_pos(self.sum as int, self.count as int);
            }
            Some((self.sum / (self.count as u128)) as u64)
        }
    }
}

impl<const N: usize> Default for Histogram<N> {
    /// An empty histogram.
    fn default() -> (r: Self)
        ensures
            r@ == spec_empty_hist(N as int),
            N >= 1 ==> r.wf(),
    {
        Histogram::new()
    }
}

/// Due-count bucket for one upcoming calendar day.
#[derive(Debug)]
pub struct DayCount {
    /// The calendar day, as days since the epoch.
    pub day: i64,
    /// The same day rendered `YYYY-MM-DD`.
    pub day_key: String,
    pub count: i64,
}

/// Card count for one source file.
#[derive(Debug)]
pub struct PathCount {
    pub path: String,
    pub count: i64,
}

/// Counts per memory lifecycle.
#[derive(Debug)]
pub struct LifecycleCounts {
    pub new: i64,
    pub young: i64,
    pub mature: i64,
}

/// The `YYYY-MM-DD` rendering of an epoch day number.
pub uninterp spec fn day_str_of(day: int) -> Seq<char>;

/// Relies on `chrono::DateTime::<Utc>::from_timestamp` and its
/// `format("%Y-%m-%d")`: the calendar-day key of a UTC day number,
/// determined by the day alone, `YYYY-MM-DD` with zero padding for years
/// 0 through 9999.
#[verifier::external_body]
fn format_day(day: i64) -> (r: String)
    requires
        0 <= day <= MAX_EPOCH_DAY,
    ensures
        r@ == day_str_of(day as int),
{
    match chrono::DateTime::<chrono::Utc>::from_timestamp(day * 86400, 0) {
        Some(dt) => dt.format("%Y-%m-%d").to_string(),
        None => String::new(),
    }
}

/// Relies on `chrono::Utc::now`: the wall clock, of which nothing is
/// promised.
#[verifier::external_body]
pub fn current_epoch_secs() -> i64 {
    chrono::Utc::now().timestamp()
}

/// The day-bucket map a bucket list stands for: day number to count.
pub open spec fn day_map(s: Seq<DayCount>) -> Map<int, int>
    decreases s.len(),
{
    if s.len() == 0 {
        Map::empty()
    } else {
        day_map(s.drop_last()).insert(s.last().day as int, s.last().count as int)
    }
}

/// The per-file count map a path list stands for.
pub open spec fn path_map(s: Seq<PathCount>) -> Map<Seq<char>, int>
    decreases s.len(),
{
    if s.len() == 0 {
        Map::empty()
    } else {
        path_map(s.drop_last()).insert(s.last().path@, s.last().count as int)
    }
}

/// No two buckets name the same day.
pub open spec fn days_distinct(s: Seq<DayCount>) -> bool {
    forall|i: int, j: int| 0 <= i < j < s.len() ==> s[i].day != s[j].day
}

/// No two entries name the same file.
pub open spec fn paths_distinct(s: Seq<PathCount>) -> bool {
    forall|i: int, j: int| 0 <= i < j < s.len() ==> s[i].path@ != s[j].path@
}

proof fn lemma_day_map_index(s: Seq<DayCount>, i: int)
    requires
        0 <= i < s.len(),
        days_distinct(s),
    ensures
        day_map(s).dom().contains(s[i].day as int),
        day_map(s)[s[i].day as int] == s[i].count as int,
    decreases s.len(),
{
    if i < s.len() - 1 {
        lemma_day_map_index(s.drop_last(), i);
    }
}

proof fn lemma_day_map_absent(s: Seq<DayCount>, day: int)
    requires
        forall|i: int| 0 <= i < s.len() ==> s[i].day as int != day,
    ensures
        !day_map(s).dom().contains(day),
    decreases s.len(),
{
    if s.len() > 0 {
        lemma_day_map_absent(s.drop_last(), day);
    }
}

proof fn lemma_path_map_index(s: Seq<PathCount>, i: int)
    requires
        0 <= i < s.len(),
        paths_distinct(s),
    ensures
        path_map(s).dom().contains(s[i].path@),
        path_map(s)[s[i].path@] == s[i].count as int,
    decreases s.len(),
{
    if i < s.len() - 1 {
        lemma_path_map_index(s.drop_last(), i);
    }
}

proof fn lemma_path_map_absent(s: Seq<PathCount>, path: Seq<char>)
    requires
        forall|i: int| 0 <= i < s.len() ==> s[i].path@ != path,
    ensures
        !path_map(s).dom().contains(path),
    decreases s.len(),
{
    if s.len() > 0 {
        lemma_path_map_absent(s.drop_last(), path);
    }
}

proof fn lemma_day_map_update(s: Seq<DayCount>, i: int, e: DayCount)
    requires
        0 <= i < s.len(),
        days_distinct(s),
        e.day == s[i].day,
    ensures
        day_map(s.update(i, e)) == day_map(s).insert(e.day as int, e.count as int),
    decreases s.len(),
{
    if i == s.len() - 1 {
        assert(s.update(i, e).drop_last() =~= s.drop_last());
        assert(day_map(s.update(i, e)) =~= day_map(s).insert(e.day as int, e.count as int));
    } else {
        assert(s.update(i, e).drop_last() =~= s.drop_last().update(i, e));
        lemma_day_map_update(s.drop_last(), i, e);
        assert(s.update(i, e).last() == s.last());
        assert(s.last().day != e.day);
        assert(day_map(s.update(i, e)) =~= day_map(s).insert(e.day as int, e.count as int));
    }
}

proof fn lemma_path_map_update(s: Seq<PathCount>, i: int, e: PathCount)
    requires
        0 <= i < s.len(),
        paths_distinct(s),
        e.path@ == s[i].path@,
    ensures
        path_map(s.update(i, e)) == path_map(s).insert(e.path@, e.count as int),
    decreases s.len(),
{
    if i == s.len() - 1 {
        assert(s.update(i, e).drop_last() =~= s.drop_last());
        assert(path_map(s.update(i, e)) =~= path_map(s).insert(e.path@, e.count as int));
    } else {
        assert(s.update(i, e).drop_last() =~= s.drop_last().update(i, e));
        lemma_path_map_update(s.drop_last(), i, e);
        assert(s.update(i, e).last() == s.last());
        assert(s.last().path@ != e.path@);
        assert(path_map(s.update(i, e)) =~= path_map(s).insert(e.path@, e.count as int));
    }
}

/// Aggregated review statistics over one pass of cards.
#[derive(Debug)]
pub struct CardStats {
    pub total_cards_in_db: i64,
    pub num_cards: i64,
    pub card_lifecycles: LifecycleCounts,
    /// Cards due now or overdue (a card without a due date counts as due).
    pub due_cards: i64,
    /// Cards due strictly after now and within seven days, bucketed by
    /// calendar day.
    pub upcoming_week: Vec<DayCount>,
    /// Cards due strictly after now and within thirty days.
    pub upcoming_month: i64,
    pub file_paths: Vec<PathCount>,
    pub difficulty_histogram: Histogram<5>,
    pub retrievability_histogram: Histogram<5>,
}

/// Mathematical model of a [`CardStats`].
#[verifier::ext_equal]
pub ghost struct StatsView {
    pub total_cards_in_db: int,
    pub num_cards: int,
    pub new_count: int,
    pub young_count: int,
    pub mature_count: int,
    pub due_cards: int,
    pub week: Map<int, int>,
    pub upcoming_month: int,
    pub files: Map<Seq<char>, int>,
    pub difficulty: HistogramView,
    pub retrievability: HistogramView,
}

impl View for CardStats {
    type V = StatsView;

    open spec fn view(&self) -> StatsView {
        StatsView {
            total_cards_in_db: self.total_cards_in_db as int,
            num_cards: self.num_cards as int,
            new_count: self.card_lifecycles.new as int,
            young_count: self.card_lifecycles.young as int,
            mature_count: self.card_lifecycles.mature as int,
            due_cards: self.due_cards as int,
            week: day_map(self.upcoming_week@),
            upcoming_month: self.upcoming_month as int,
            files: path_map(self.file_paths@),
            difficulty: self.difficulty_histogram@,
            retrievability: self.retrievability_histogram@,
        }
    }
}

/// The model of a fresh aggregate.
pub open spec fn spec_empty_stats() -> StatsView {
    StatsView {
        total_cards_in_db: 0,
        num_cards: 0,
        new_count: 0,
        young_count: 0,
        mature_count: 0,
        due_cards: 0,
        week: Map::empty(),
        upcoming_month: 0,
        files: Map::empty(),
        difficulty: spec_empty_hist(5),
        retrievability: spec_empty_hist(5),
    }
}

/// The per-card inputs of one aggregation step.
#[verifier::ext_equal]
pub ghost struct UpdateArgs {
    pub file_path: Seq<char>,
    pub review_count: int,
    pub due_date: Option<int>,
    pub interval: int,
    pub difficulty: int,
    pub stability: int,
    pub last_reviewed_at: Option<int>,
}

/// Insert-or-increment on a count map.
pub open spec fn bump<K>(m: Map<K, int>, k: K) -> Map<K, int> {
    m.insert(
        k,
        if m.dom().contains(k) {
            m[k] + 1
        } else {
            1
        },
    )
}

/// A card's lifecycle: never reviewed is new; a reviewed card is mature
/// past the maturity threshold and young otherwise.
pub open spec fn spec_lifecycle(review_count: int, interval: int) -> CardLifeCycle {
    if review_count == 0 {
        CardLifeCycle::New
    } else if interval > MATURE_INTERVAL_MICRO as int {
        CardLifeCycle::Mature
    } else {
        CardLifeCycle::Young
    }
}

/// The epoch day number of a timestamp.
pub open spec fn due_day(t: int) -> int {
    t / (DAY_SECS as int)
}

/// Elapsed micro-days between a last review and now, floored at zero.
pub open spec fn spec_elapsed_micro(now: int, last: int) -> int {
    if now >= last {
        (now - last) * 1000000 / (DAY_SECS as int)
    } else {
        0
    }
}

/// The full effect of one aggregation step on the model.
pub open spec fn spec_stats_update(v: StatsView, now: int, a: UpdateArgs) -> StatsView {
    let lc = spec_lifecycle(a.review_count, a.interval);
    let due_now = match a.due_date {
        None => true,
        Some(d) => d <= now,
    };
    let in_week = match a.due_date {
        None => false,
        Some(d) => now < d && d <= now + 7 * (DAY_SECS as int),
    };
    let in_month = match a.due_date {
        None => false,
        Some(d) => now < d && d <= now + 30 * (DAY_SECS as int),
    };
    StatsView {
        total_cards_in_db: v.total_cards_in_db,
        num_cards: v.num_cards,
        new_count: v.new_count + if lc == CardLifeCycle::New {
            1int
        } else {
            0int
        },
        young_count: v.young_count + if lc == CardLifeCycle::Young {
            1int
        } else {
            0int
        },
        mature_count: v.mature_count + if lc == CardLifeCycle::Mature {
            1int
        } else {
            0int
        },
        due_cards: v.due_cards + if due_now {
            1int
        } else {
            0int
        },
        week: if in_week {
            bump(v.week, due_day(a.due_date->0))
        } else {
            v.week
        },
        upcoming_month: v.upcoming_month + if in_month {
            1int
        } else {
            0int
        },
        files: bump(v.files, a.file_path),
        difficulty: spec_hist_update(v.difficulty, a.difficulty / 10, 5),
        retrievability: match a.last_reviewed_at {
            None => v.retrievability,
            Some(lr) => spec_hist_update(
                v.retrievability,
                spec_recall(spec_elapsed_micro(now, lr), a.stability),
                5,
            ),
        },
    }
}


/// Insert-or-increment the bucket for one file path.
fn bump_path_vec(v: &mut Vec<PathCount>, path: &String, cap: u64)
    requires
        paths_distinct(old(v)@),
        forall|i: int| 0 <= i < old(v)@.len() ==> 1 <= (#[trigger] old(v)@[i]).count as int <= cap as int,
        cap < 0x7fffffffffffffff,
    ensures
        paths_distinct(final(v)@),
        forall|i: int| 0 <= i < final(v)@.len() ==> 1 <= (#[trigger] final(v)@[i]).count as int <= cap as int + 1,
        path_map(final(v)@) == bump(path_map(old(v)@), path@),
{
    let ghost orig = (*v)@;
    let n = v.len();
    let mut i: usize = 0;
    while i < n && !(v[i].path == *path)
        invariant
            (*v)@ == orig,
            i <= n == (*v)@.len(),
            forall|j: int| 0 <= j < i ==> (#[trigger] (*v)@[j]).path@ != path@,
        decreases n - i,
    {
        i = i + 1;
    }
    if i < n {
        let c = v[i].count;
        proof {
            lemma_path_map_index(orig, i as int);
        }
        let entry = v.remove(i);
        v.insert(i, PathCount { path: entry.path, count: c + 1 });
        proof {
            assert((*v)@ =~= orig.update(i as int, (*v)@[i as int]));
            assert((*v)@[i as int].path@ == path@);
            assert((*v)@[i as int].count == c + 1);
            lemma_path_map_update(orig, i as int, (*v)@[i as int]);
            assert(path_map((*v)@) =~= bump(path_map(orig), path@));
            assert forall|a: int, b: int| 0 <= a < b < (*v)@.len() implies (*v)@[a].path@
                != (*v)@[b].path@ by {
                assert((*v)@[a].path@ == orig[a].path@);
                assert((*v)@[b].path@ == orig[b].path@);
            }
        }
    } else {
        v.push(PathCount { path: path.clone(), count: 1 });
        proof {
            assert((*v)@.drop_last() =~= orig);
            assert((*v)@.last().path@ == path@);
            lemma_path_map_absent(orig, path@);
            assert(path_map((*v)@) =~= bump(path_map(orig), path@));
            assert forall|a: int, b: int| 0 <= a < b < (*v)@.len() implies (*v)@[a].path@
                != (*v)@[b].path@ by {
                assert((*v)@[a].path@ == orig[a].path@);
                if b < (*v)@.len() - 1 {
                    assert((*v)@[b].path@ == orig[b].path@);
                }
            }
        }
    }
}

/// Insert-or-increment the bucket for one upcoming day.
fn bump_day_vec(v: &mut Vec<DayCount>, day: i64, key: String, cap: u64)
    requires
        days_distinct(old(v)@),
        forall|i: int| 0 <= i < old(v)@.len() ==> 1 <= (#[trigger] old(v)@[i]).count as int <= cap as int,
        forall|i: int|
            0 <= i < old(v)@.len() ==> 0 <= (#[trigger] old(v)@[i]).day <= MAX_EPOCH_DAY
                && old(v)@[i].day_key@ == day_str_of(old(v)@[i].day as int),
        cap < 0x7fffffffffffffff,
        0 <= day <= MAX_EPOCH_DAY,
        key@ == day_str_of(day as int),
    ensures
        days_distinct(final(v)@),
        forall|i: int| 0 <= i < final(v)@.len() ==> 1 <= (#[trigger] final(v)@[i]).count as int <= cap as int + 1,
        forall|i: int|
            0 <= i < final(v)@.len() ==> 0 <= (#[trigger] final(v)@[i]).day <= MAX_EPOCH_DAY
                && final(v)@[i].day_key@ == day_str_of(final(v)@[i].day as int),
        day_map(final(v)@) == bump(day_map(old(v)@), day as int),
{
    let ghost orig = (*v)@;
    let n = v.len();
    let mut i: usize = 0;
    while i < n && v[i].day != day
        invariant
            (*v)@ == orig,
            i <= n == (*v)@.len(),
            forall|j: int| 0 <= j < i ==> (#[trigger] (*v)@[j]).day != day,
        decreases n - i,
    {
        i = i + 1;
    }
    if i < n {
        let c = v[i].count;
        proof {
            lemma_day_map_index(orig, i as int);
        }
        let entry = v.remove(i);
        v.insert(i, DayCount { day, day_key: entry.day_key, count: c + 1 });
        proof {
            assert((*v)@ =~= orig.update(i as int, (*v)@[i as int]));
            assert((*v)@[i as int].day == day);
            assert((*v)@[i as int].count == c + 1);
            lemma_day_map_update(orig, i as int, (*v)@[i as int]);
            assert(day_map((*v)@) =~= bump(day_map(orig), day as int));
            assert forall|a: int, b: int| 0 <= a < b < (*v)@.len() implies (*v)@[a].day
                != (*v)@[b].day by {
                assert((*v)@[a].day == orig[a].day);
                assert((*v)@[b].day == orig[b].day);
            }
        }
    } else {
        v.push(DayCount { day, day_key: key, count: 1 });
        proof {
            assert((*v)@.drop_last() =~= orig);
            assert((*v)@.last().day == day);
            lemma_day_map_absent(orig, day as int);
            assert(day_map((*v)@) =~= bump(day_map(orig), day as int));
            assert forall|a: int, b: int| 0 <= a < b < (*v)@.len() implies (*v)@[a].day
                != (*v)@[b].day by {
                assert((*v)@[a].day == orig[a].day);
                if b < (*v)@.len() - 1 {
                    assert((*v)@[b].day == orig[b].day);
                }
            }
        }
    }
}

/// The view of an optional timestamp.
pub open spec fn opt_int(o: Option<i64>) -> Option<int> {
    match o {
        Some(x) => Some(x as int),
        None => None,
    }
}

/// The argument record of one aggregation step.
pub open spec fn update_args(
    card: Card,
    review_count: i64,
    due_date: Option<i64>,
    interval_micro: u64,
    difficulty_micro: u64,
    stability_micro: u64,
    last_reviewed_at: Option<i64>,
) -> UpdateArgs {
    UpdateArgs {
        file_path: card.file_path@,
        review_count: review_count as int,
        due_date: opt_int(due_date),
        interval: interval_micro as int,
        difficulty: difficulty_micro as int,
        stability: stability_micro as int,
        last_reviewed_at: opt_int(last_reviewed_at),
    }
}

impl CardStats {
    /// Structural soundness: every counter is bounded by the number of
    /// aggregation steps taken (the difficulty histogram counts them all),
    /// bucket keys are unique, and each day bucket carries the rendering of
    /// its own day.
    pub open spec fn wf(self) -> bool {
        let cap = self.difficulty_histogram.count as int;
        &&& self.difficulty_histogram.wf()
        &&& self.retrievability_histogram.wf()
        &&& self.retrievability_histogram.count as int <= cap
        &&& 0 <= self.due_cards as int <= cap
        &&& 0 <= self.upcoming_month as int <= cap
        &&& 0 <= self.card_lifecycles.new as int <= cap
        &&& 0 <= self.card_lifecycles.young as int <= cap
        &&& 0 <= self.card_lifecycles.mature as int <= cap
        &&& days_distinct(self.upcoming_week@)
        &&& forall|i: int|
            0 <= i < self.upcoming_week@.len() ==> 1 <= (#[trigger] self.upcoming_week@[i]).count as int <= cap
                && 0 <= self.upcoming_week@[i].day <= MAX_EPOCH_DAY
                && self.upcoming_week@[i].day_key@ == day_str_of(self.upcoming_week@[i].day as int)
        &&& paths_distinct(self.file_paths@)
        &&& forall|i: int|
            0 <= i < self.file_paths@.len() ==> 1 <= (#[trigger] self.file_paths@[i]).count as int <= cap
    }

    /// A fresh, empty aggregate.
    pub fn new() -> (r: CardStats)
        ensures
            r.wf(),
            r@ == spec_empty_stats(),
    {
        let r = CardStats {
            total_cards_in_db: 0,
            num_cards: 0,
            card_lifecycles: LifecycleCounts { new: 0, young: 0, mature: 0 },
            due_cards: 0,
            upcoming_week: Vec::new(),
            upcoming_month: 0,
            file_paths: Vec::new(),
            difficulty_histogram: Histogram::new(),
            retrievability_histogram: Histogram::new(),
        };
        proof {
            assert(day_map(r.upcoming_week@) =~= Map::<int, int>::empty());
            assert(path_map(r.file_paths@) =~= Map::<Seq<char>, int>::empty());
            assert(r@ =~= spec_empty_stats());
        }
        r
    }

    /// One aggregation step for one card, evaluated against the caller's
    /// captured `now`.
    pub fn update(
        &mut self,
        card: &Card,
        review_count: i64,
        due_date: Option<i64>,
        interval_micro: u64,
        difficulty_micro: u64,
        stability_micro: u64,
        last_reviewed_at: Option<i64>,
        now: i64,
    )
        requires
            old(self).wf(),
            old(self).difficulty_histogram.count < 0x7fffffffffffffff,
            0 <= now <= MAX_EPOCH_SECS - 30 * DAY_SECS,
            due_date matches Some(d) ==> 0 <= d <= MAX_EPOCH_SECS,
            last_reviewed_at matches Some(lr) ==> 0 <= lr <= MAX_EPOCH_SECS && stability_micro
                > 0,
        ensures
            final(self).wf(),
            final(self)@ == spec_stats_update(
                old(self)@,
                now as int,
                update_args(
                    *card,
                    review_count,
                    due_date,
                    interval_micro,
                    difficulty_micro,
                    stability_micro,
                    last_reviewed_at,
                ),
            ),
    {
        let ghost v0 = self@;
        let ghost a = update_args(
            *card,
            review_count,
            due_date,
            interval_micro,
            difficulty_micro,
            stability_micro,
            last_reviewed_at,
        );
        let cap = self.difficulty_histogram.count;
        bump_path_vec(&mut self.file_paths, &card.file_path, cap);

        if review_count == 0 {
            self.card_lifecycles.new = self.card_lifecycles.new + 1;
        } else if interval_micro > MATURE_INTERVAL_MICRO {
            self.card_lifecycles.mature = self.card_lifecycles.mature + 1;
        } else {
            self.card_lifecycles.young = self.card_lifecycles.young + 1;
        }

        match due_date {
            None => {
                self.due_cards = self.due_cards + 1;
            },
            Some(d) => {
                if d <= now {
                    self.due_cards = self.due_cards + 1;
                } else {
                    if d <= now + 7 * DAY_SECS {
                        let day = d / DAY_SECS;
                        proof {
                            lemma_div_is_ordered(d as int, MAX_EPOCH_SECS as int, DAY_SECS as int);
                            lemma_div_pos_is_pos(d as int, DAY_SECS as int);
                        }
                        let key = format_day(day);
                        bump_day_vec(&mut self.upcoming_week, day, key, cap);
                    }
                    if d <= now + 30 * DAY_SECS {
                        self.upcoming_month = self.upcoming_month + 1;
                    }
                }
            },
        }

        self.difficulty_histogram.update(difficulty_micro / 10);

        match last_reviewed_at {
            None => {},
            Some(lr) => {
                let elapsed_secs: i64 = if now >= lr {
                    now - lr
                } else {
                    0
                };
                proof {
                    lemma_div_nonincreasing(elapsed_secs as int * 1000000, DAY_SECS as int);
                    lemma_div_pos_is_pos(elapsed_secs as int * 1000000, DAY_SECS as int);
                }
                let elapsed_micro = ((elapsed_secs as u128) * 1000000 / 86400) as u64;
                let r = recall_micro(elapsed_micro, stability_micro);
                self.retrievability_histogram.update(r);
                proof {
                    assert(elapsed_micro as int == spec_elapsed_micro(now as int, lr as int));
                    assert(r as int == spec_recall(spec_elapsed_micro(now as int, lr as int), stability_micro as int));
                }
            },
        }

        proof {
            assert(self@ =~= spec_stats_update(v0, now as int, a));
        }
    }

    /// The count aggregated for one lifecycle.
    pub fn lifecycle_count(&self, lifecycle: CardLifeCycle) -> (c: i64)
        ensures
            c as int == match lifecycle {
                CardLifeCycle::New => self@.new_count,
                CardLifeCycle::Young => self@.young_count,
                CardLifeCycle::Mature => self@.mature_count,
            },
    {
        match lifecycle {
            CardLifeCycle::New => self.card_lifecycles.new,
            CardLifeCycle::Young => self.card_lifecycles.young,
            CardLifeCycle::Mature => self.card_lifecycles.mature,
        }
    }

    /// The cards due on one upcoming day, by day number.
    pub fn week_count(&self, day: i64) -> (c: i64)
        requires
            self.wf(),
        ensures
            c as int == if self@.week.dom().contains(day as int) {
                self@.week[day as int]
            } else {
                0
            },
    {
        let mut i: usize = 0;
        while i < self.upcoming_week.len()
            invariant
                i <= self.upcoming_week@.len(),
                days_distinct(self.upcoming_week@),
                forall|j: int| 0 <= j < i ==> (#[trigger] self.upcoming_week@[j]).day != day,
            decreases self.upcoming_week@.len() - i,
        {
            if self.upcoming_week[i].day == day {
                proof {
                    lemma_day_map_index(self.upcoming_week@, i as int);
                }
                return self.upcoming_week[i].count;
            }
            i = i + 1;
        }
        proof {
            lemma_day_map_absent(self.upcoming_week@, day as int);
        }
        0
    }

    /// The cards aggregated from one source file.
    pub fn file_count(&self, path: &String) -> (c: i64)
        requires
            self.wf(),
        ensures
            c as int == if self@.files.dom().contains(path@) {
                self@.files[path@]
            } else {
                0
            },
    {
        let mut i: usize = 0;
        while i < self.file_paths.len()
            invariant
                i <= self.file_paths@.len(),
                paths_distinct(self.file_paths@),
                forall|j: int| 0 <= j < i ==> (#[trigger] self.file_paths@[j]).path@ != path@,
            decreases self.file_paths@.len() - i,
        {
            if self.file_paths[i].path == *path {
                proof {
                    lemma_path_map_index(self.file_paths@, i as int);
                }
                return self.file_paths[i].count;
            }
            i = i + 1;
        }
        proof {
            lemma_path_map_absent(self.file_paths@, path@);
        }
        0
    }
}

impl Default for CardStats {
    /// A fresh, empty aggregate.
    fn default() -> (r: CardStats)
        ensures
            r.wf(),
            r@ == spec_empty_stats(),
    {
        CardStats::new()
    }
}

proof fn lemma_bump_commutes<K>(m: Map<K, int>, k1: K, k2: K)
    ensures
        bump(bump(m, k1), k2) == bump(bump(m, k2), k1),
{
    if k1 == k2 {
        assert(bump(bump(m, k1), k2) =~= bump(bump(m, k2), k1));
    } else {
        assert(bump(bump(m, k1), k2) =~= bump(bump(m, k2), k1));
    }
}

proof fn lemma_bin_index_in_range(value: int, n: int)
    requires
        n >= 1,
    ensures
        0 <= spec_bin_index(value, n) < n,
{
    let v = if value < 0 {
        0
    } else if value > RECALL_ONE as int {
        RECALL_ONE as int
    } else {
        value
    };
    assert(v * n >= 0) by (nonlinear_arith)
        requires
            v >= 0,
            n >= 1,
    ;
    lemma_div_pos_is_pos(v * n, 1000000);
}

proof fn lemma_hist_update_commutes(h: HistogramView, v1: int, v2: int, n: int)
    requires
        n >= 1,
        h.bins.len() == n,
    ensures
        spec_hist_update(spec_hist_update(h, v1, n), v2, n) == spec_hist_update(
            spec_hist_update(h, v2, n),
            v1,
            n,
        ),
{
    let i1 = spec_bin_index(v1, n);
    let i2 = spec_bin_index(v2, n);
    lemma_bin_index_in_range(v1, n);
    lemma_bin_index_in_range(v2, n);
    assert(spec_hist_update(spec_hist_update(h, v1, n), v2, n).bins =~= spec_hist_update(
        spec_hist_update(h, v2, n),
        v1,
        n,
    ).bins);
    assert(spec_hist_update(spec_hist_update(h, v1, n), v2, n) =~= spec_hist_update(
        spec_hist_update(h, v2, n),
        v1,
        n,
    ));
}

/// Aggregation steps commute: against one captured `now`, folding two cards
/// in either order leaves the same counters, bucket maps and histograms, so
/// a whole pass is invariant under any permutation of its cards.
pub proof fn lemma_update_commutes(v: StatsView, now: int, a: UpdateArgs, b: UpdateArgs)
    requires
        v.difficulty.bins.len() == 5,
        v.retrievability.bins.len() == 5,
    ensures
        spec_stats_update(spec_stats_update(v, now, a), now, b) == spec_stats_update(
            spec_stats_update(v, now, b),
            now,
            a,
        ),
{
    let ab = spec_stats_update(spec_stats_update(v, now, a), now, b);
    let ba = spec_stats_update(spec_stats_update(v, now, b), now, a);
    lemma_bump_commutes(v.files, a.file_path, b.file_path);
    if a.due_date is Some && b.due_date is Some {
        lemma_bump_commutes(v.week, due_day(a.due_date->0), due_day(b.due_date->0));
    }
    lemma_hist_update_commutes(v.difficulty, a.difficulty / 10, b.difficulty / 10, 5);
    if a.last_reviewed_at is Some && b.last_reviewed_at is Some {
        lemma_hist_update_commutes(
            v.retrievability,
            spec_recall(spec_elapsed_micro(now, a.last_reviewed_at->0), a.stability),
            spec_recall(spec_elapsed_micro(now, b.last_reviewed_at->0), b.stability),
            5,
        );
    }
    assert(ab =~= ba);
}

} // verus!
