use cardcore::card::{Card, CardContent};
use cardcore::recall::recall_micro;
use cardcore::stats::{CardLifeCycle, CardStats, Histogram};

const DAY: i64 = 86400;
const MICRO_DAY: u64 = 1_000_000;

fn card(path: &str) -> Card {
    Card {
        file_path: path.to_string(),
        file_card_range: (0, 2),
        content: CardContent::Basic { question: "q?".to_string(), answer: "a".to_string() },
        card_hash: "0123".to_string(),
    }
}

#[test]
fn recall_starts_at_one_and_decays() {
    assert_eq!(recall_micro(0, MICRO_DAY), 1_000_000);
    assert_eq!(recall_micro(0, 17 * MICRO_DAY), 1_000_000);

    // exact value: one elapsed day at one day of stability gives
    // sqrt(81/100) of full recall
    assert_eq!(recall_micro(MICRO_DAY, MICRO_DAY), 900_000);

    let r1 = recall_micro(MICRO_DAY, 3 * MICRO_DAY);
    let r2 = recall_micro(2 * MICRO_DAY, 3 * MICRO_DAY);
    let r3 = recall_micro(10 * MICRO_DAY, 3 * MICRO_DAY);
    assert!(r1 > r2 && r2 > r3);

    // higher stability, slower decay
    assert!(recall_micro(5 * MICRO_DAY, 10 * MICRO_DAY) > recall_micro(5 * MICRO_DAY, MICRO_DAY));
}

#[test]
fn lifecycle_classification() {
    let mut stats = CardStats::new();
    let now: i64 = 1_000_000;
    let c = card("a.md");

    // never reviewed is new, whatever the interval
    stats.update(&c, 0, None, 999 * MICRO_DAY, 0, 0, None, now);
    assert_eq!(stats.lifecycle_count(CardLifeCycle::New), 1);

    // reviewed with a long interval is mature
    stats.update(&c, 5, None, 25 * MICRO_DAY, 0, 0, None, now);
    assert_eq!(stats.lifecycle_count(CardLifeCycle::Mature), 1);

    // reviewed with a short interval is young
    stats.update(&c, 5, None, 10 * MICRO_DAY, 0, 0, None, now);
    assert_eq!(stats.lifecycle_count(CardLifeCycle::Young), 1);
    assert_eq!(stats.lifecycle_count(CardLifeCycle::New), 1);
}

#[test]
fn due_date_buckets() {
    let mut stats = CardStats::new();
    let now: i64 = 0;
    let c = card("a.md");

    // due in three days: counts for the week and the month, not as due now
    stats.update(&c, 1, Some(3 * DAY), MICRO_DAY, 0, 0, None, now);
    assert_eq!(stats.due_cards, 0);
    assert_eq!(stats.upcoming_month, 1);
    assert_eq!(stats.week_count(3), 1);
    assert_eq!(stats.upcoming_week.len(), 1);
    assert_eq!(stats.upcoming_week[0].day_key, "1970-01-04");
    assert_eq!(stats.upcoming_week[0].count, 1);

    // no due date counts as due now
    stats.update(&c, 1, None, MICRO_DAY, 0, 0, None, now);
    assert_eq!(stats.due_cards, 1);

    // overdue counts as due now
    stats.update(&c, 1, Some(0), MICRO_DAY, 0, 0, None, now);
    assert_eq!(stats.due_cards, 2);

    // due in twenty days: month only
    stats.update(&c, 1, Some(20 * DAY), MICRO_DAY, 0, 0, None, now);
    assert_eq!(stats.upcoming_month, 2);
    assert_eq!(stats.upcoming_week.len(), 1);

    // due in forty days: no bucket at all
    stats.update(&c, 1, Some(40 * DAY), MICRO_DAY, 0, 0, None, now);
    assert_eq!(stats.upcoming_month, 2);
    assert_eq!(stats.due_cards, 2);

    // two cards on the same upcoming day share one bucket
    stats.update(&c, 1, Some(3 * DAY + 60), MICRO_DAY, 0, 0, None, now);
    assert_eq!(stats.week_count(3), 2);
    assert_eq!(stats.upcoming_week.len(), 1);

    assert_eq!(stats.file_count(&"a.md".to_string()), 6);
    assert_eq!(stats.file_count(&"other.md".to_string()), 0);
}

#[test]
fn histogram_bins_and_mean() {
    let mut h: Histogram<5> = Histogram::new();
    assert_eq!(h.mean(), None);

    h.update(250_000);
    h.update(750_000);
    assert_eq!(h.mean(), Some(500_000));
    assert_eq!(h.bins, vec![0, 1, 0, 1, 0]);

    // values are clamped into the top bin; the raw value still joins the sum
    h.update(2_000_000);
    assert_eq!(h.bins, vec![0, 1, 0, 1, 1]);
    assert_eq!(h.count, 3);
    assert_eq!(h.sum, 3_000_000);

    let mut edge: Histogram<5> = Histogram::new();
    edge.update(0);
    edge.update(1_000_000);
    edge.update(200_000);
    assert_eq!(edge.bins, vec![1, 1, 0, 0, 1]);
}

#[test]
fn difficulty_and_retrievability_histograms() {
    let mut stats = CardStats::new();
    let now: i64 = 100 * DAY;
    let c = card("a.md");

    // difficulty 5.0 of 10 lands mid-histogram
    stats.update(&c, 1, None, MICRO_DAY, 5 * MICRO_DAY, 0, None, now);
    assert_eq!(stats.difficulty_histogram.bins, vec![0, 0, 1, 0, 0]);
    // no last review: no retrievability observation
    assert_eq!(stats.retrievability_histogram.count, 0);

    // reviewed just now: full retrievability
    stats.update(&c, 1, None, MICRO_DAY, 0, MICRO_DAY, Some(now), now);
    assert_eq!(stats.retrievability_histogram.count, 1);
    assert_eq!(stats.retrievability_histogram.bins, vec![0, 0, 0, 0, 1]);
    assert_eq!(stats.retrievability_histogram.sum, 1_000_000);
}

#[test]
fn update_calls_commute() {
    let now: i64 = 10 * DAY;
    let a = card("a.md");
    let b = card("b.md");

    let mut s1 = CardStats::new();
    s1.update(&a, 0, Some(now + 2 * DAY), MICRO_DAY, 3 * MICRO_DAY, 0, None, now);
    s1.update(&b, 4, Some(now - DAY), 30 * MICRO_DAY, 7 * MICRO_DAY, 2 * MICRO_DAY, Some(now - 5 * DAY), now);
    s1.update(&a, 2, Some(now + 2 * DAY), 5 * MICRO_DAY, 9 * MICRO_DAY, MICRO_DAY, Some(now - DAY), now);

    let mut s2 = CardStats::new();
    s2.update(&a, 2, Some(now + 2 * DAY), 5 * MICRO_DAY, 9 * MICRO_DAY, MICRO_DAY, Some(now - DAY), now);
    s2.update(&a, 0, Some(now + 2 * DAY), MICRO_DAY, 3 * MICRO_DAY, 0, None, now);
    s2.update(&b, 4, Some(now - DAY), 30 * MICRO_DAY, 7 * MICRO_DAY, 2 * MICRO_DAY, Some(now - 5 * DAY), now);

    assert_eq!(s1.due_cards, s2.due_cards);
    assert_eq!(s1.upcoming_month, s2.upcoming_month);
    for lc in [CardLifeCycle::New, CardLifeCycle::Young, CardLifeCycle::Mature] {
        assert_eq!(s1.lifecycle_count(lc.clone()), s2.lifecycle_count(lc));
    }
    assert_eq!(s1.week_count(12), s2.week_count(12));
    assert_eq!(s1.file_count(&"a.md".to_string()), s2.file_count(&"a.md".to_string()));
    assert_eq!(s1.file_count(&"b.md".to_string()), s2.file_count(&"b.md".to_string()));
    assert_eq!(s1.difficulty_histogram.bins, s2.difficulty_histogram.bins);
    assert_eq!(s1.difficulty_histogram.count, s2.difficulty_histogram.count);
    assert_eq!(s1.difficulty_histogram.sum, s2.difficulty_histogram.sum);
    assert_eq!(s1.retrievability_histogram.bins, s2.retrievability_histogram.bins);
    assert_eq!(s1.retrievability_histogram.count, s2.retrievability_histogram.count);
    assert_eq!(s1.retrievability_histogram.sum, s2.retrievability_histogram.sum);
}
