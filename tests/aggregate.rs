use stats::{Commute, MinMax, OnlineStats, Unsorted};
use xsv_stats::buffer::SampleBuffer;
use xsv_stats::engine::{
    add_row, chunk_plan, chunks, merge_all, new_stats, njobs, stat_headers, use_parallel,
};
use xsv_stats::field_type::FieldType;
use xsv_stats::range::RangeTracker;
use xsv_stats::text::is_float_text;
use xsv_stats::stats::{FloatSummary, NumericFeed, Stats, WhichStats};

fn basic() -> WhichStats {
    WhichStats { include_nulls: false, range: true, dist: true, cardinality: false, median: false, mode: false }
}

fn everything() -> WhichStats {
    WhichStats { include_nulls: false, range: true, dist: true, cardinality: true, median: true, mode: true }
}

/// The floating-point side of one column, fed as the aggregate asks.
#[derive(Clone)]
struct Floats {
    online: OnlineStats,
    nulls: u64,
    bounds: MinMax<f64>,
    median: Unsorted<f64>,
}

impl Floats {
    fn new() -> Floats {
        Floats { online: OnlineStats::new(), nulls: 0, bounds: MinMax::new(), median: Unsorted::new() }
    }

    fn feed(&mut self, feed: NumericFeed, sample: &[u8]) {
        match feed {
            NumericFeed::Skip => {}
            NumericFeed::Null => self.nulls += 1,
            NumericFeed::Integer | NumericFeed::Float => {
                let n: f64 = std::str::from_utf8(sample).unwrap().parse().unwrap();
                self.online.add(n);
                self.median.add(n);
                if feed == NumericFeed::Float {
                    self.bounds.add(n);
                }
            }
        }
    }

    fn summary(&mut self) -> FloatSummary {
        FloatSummary {
            min_max: match (self.bounds.min(), self.bounds.max()) {
                (Some(a), Some(b)) => Some((a.to_string(), b.to_string())),
                _ => None,
            },
            mean: if self.online.len() == 0 { None } else { Some(self.online.mean().to_string()) },
            stddev: if self.online.len() == 0 { None } else { Some(self.online.stddev().to_string()) },
            median: self.median.median().map(|m| m.to_string()),
        }
    }
}

/// A sample's float value truncated toward zero, where it reads as a float.
fn truncated(x: &[u8]) -> Option<i64> {
    if is_float_text(x) {
        Some(std::str::from_utf8(x).unwrap().parse::<f64>().unwrap() as i64)
    } else {
        None
    }
}

fn truncs(row: &Vec<Vec<u8>>) -> Vec<Option<i64>> {
    row.iter().map(|f| truncated(f)).collect()
}

fn run_column(which: WhichStats, samples: &[&str]) -> (Stats, Floats) {
    let mut s = Stats::new(which);
    let mut f = Floats::new();
    for x in samples {
        let feed = s.add(x.as_bytes(), truncated(x.as_bytes()));
        f.feed(feed, x.as_bytes());
    }
    (s, f)
}

fn record(which: WhichStats, samples: &[&str]) -> Vec<String> {
    let (s, mut f) = run_column(which, samples);
    s.to_record(&f.summary())
}

fn empty_floats() -> FloatSummary {
    FloatSummary { min_max: None, mean: None, stddev: None, median: None }
}

#[test]
fn end_to_end_two_numeric_columns() {
    let rows: Vec<Vec<Vec<u8>>> = vec![
        vec![b"1".to_vec(), b"2".to_vec(), b"x".to_vec()],
        vec![b"".to_vec(), b"3".to_vec(), b"y".to_vec()],
    ];
    let mut stats = new_stats(basic(), 2);
    let mut floats = vec![Floats::new(), Floats::new()];
    for row in &rows {
        let selected: Vec<Vec<u8>> = vec![row[0].clone(), row[1].clone()];
        let feeds = add_row(&mut stats, &selected, &truncs(&selected));
        for i in 0..2 {
            floats[i].feed(feeds[i], &selected[i]);
        }
    }
    let r0 = stats[0].to_record(&floats[0].summary());
    let r1 = stats[1].to_record(&floats[1].summary());
    assert_eq!(r0, vec!["Integer", "1", "1", "1", "0"]);
    assert_eq!(r1, vec!["Integer", "2", "3", "2.5", "0.5"]);
}

#[test]
fn text_column_reports_byte_bounds() {
    assert_eq!(record(basic(), &["x", "y"]), vec!["Unicode", "x", "y", "", ""]);
    assert_eq!(record(basic(), &["b", "1", "a"]), vec!["Unicode", "1", "b", "", ""]);
}

#[test]
fn negative_integer_bounds() {
    assert_eq!(record(basic(), &["-5", "3", "12"]), vec!["Integer", "-5", "12", "3.333333333333333", "6.944222218666553"]);
}

#[test]
fn float_column_takes_float_bounds_from_caller() {
    let r = record(basic(), &["1.5", "2.5"]);
    assert_eq!(r, vec!["Float", "1.5", "2.5", "2", "0.5"]);
}

#[test]
fn empty_column_reports_integer_without_bounds() {
    assert_eq!(record(basic(), &[]), vec!["Integer", "", "", "", ""]);
    assert_eq!(record(basic(), &["", ""]), vec!["Integer", "", "", "", ""]);
}

#[test]
fn nulls_counted_when_asked() {
    let mut which = basic();
    which.include_nulls = true;
    let mut s = Stats::new(which);
    assert_eq!(s.add(b"4", truncated(b"4")), NumericFeed::Integer);
    assert_eq!(s.add(b"", truncated(b"")), NumericFeed::Null);
    let r = record(which, &["4", ""]);
    assert_eq!(r, vec!["Integer", "4", "4", "4", "0"]);
    let mut t = Stats::new(basic());
    t.add(b"4", truncated(b"4"));
    assert_eq!(t.add(b"", truncated(b"")), NumericFeed::Skip);
}

#[test]
fn feeds_follow_running_type() {
    let mut s = Stats::new(basic());
    assert_eq!(s.add(b"1", truncated(b"1")), NumericFeed::Integer);
    assert_eq!(s.add(b"1.5", truncated(b"1.5")), NumericFeed::Float);
    assert_eq!(s.add(b"2", truncated(b"2")), NumericFeed::Float);
    assert_eq!(s.add(b"z", truncated(b"z")), NumericFeed::Skip);
    assert_eq!(s.typ, FieldType::Unicode);
}

#[test]
fn optional_fields_order_and_presence() {
    let r = record(everything(), &["a", "b", "b"]);
    assert_eq!(r, vec!["Unicode", "a", "b", "", "", "", "b", "2"]);
    let r = record(everything(), &[]);
    assert_eq!(r, vec!["Integer", "", "", "", "", "", "N/A", ""]);
    let mut only_card = basic();
    only_card.cardinality = true;
    assert_eq!(record(only_card, &["a", "a"]), vec!["Unicode", "a", "a", "", "", "1"]);
}

#[test]
fn median_values() {
    let mut which = basic();
    which.median = true;
    assert_eq!(record(which, &["1", "2", "3", "4"])[5], "2.5");
    assert_eq!(record(which, &["3", "1", "2"])[5], "2");
    assert_eq!(record(which, &[])[5], "");
    let mut u: Unsorted<f64> = Unsorted::new();
    assert_eq!(u.median(), None);
}

#[test]
fn mode_ties_go_to_first_seen() {
    let mut b = SampleBuffer::new();
    for x in ["b", "a", "a", "b", "c"] {
        b.add(x.as_bytes());
    }
    assert_eq!(b.mode(), Some(b"b".to_vec()));
    assert_eq!(b.mode_position(), Some(0));
    assert_eq!(b.cardinality(), 3);
    assert_eq!(b.count_of(b"a"), 2);
    assert_eq!(b.len(), 5);
    assert_eq!(SampleBuffer::new().mode(), None);
    assert_eq!(SampleBuffer::new().cardinality(), 0);
}

#[test]
fn mode_is_rendered_lossily() {
    let mut which = basic();
    which.mode = true;
    let mut s = Stats::new(which);
    s.add(&[0xff], None);
    let r = s.to_record(&empty_floats());
    assert_eq!(r, vec!["Unknown", "\u{FFFD}", "\u{FFFD}", "", "", "\u{FFFD}"]);
}

#[test]
fn buffer_merge_counts_union() {
    let mut a = SampleBuffer::new();
    let mut b = SampleBuffer::new();
    for x in ["x", "y", "y"] {
        a.add(x.as_bytes());
    }
    for x in ["z", "z", "z", "x"] {
        b.add(x.as_bytes());
    }
    a.merge(b);
    assert_eq!(a.len(), 7);
    assert_eq!(a.cardinality(), 3);
    assert_eq!(a.mode(), Some(b"z".to_vec()));
}

#[test]
fn range_merge_is_union_bounds() {
    let mut a = RangeTracker::new();
    let mut b = RangeTracker::new();
    for x in ["5", "apple", "-3"] {
        a.add(FieldType::from_sample(x.as_bytes()), x.as_bytes(), None);
    }
    for x in ["10", "Zed", ""] {
        b.add(FieldType::from_sample(x.as_bytes()), x.as_bytes(), None);
    }
    a.merge(b);
    assert_eq!(a.integers, Some((-3, 10)));
    assert_eq!(a.strings, Some((b"-3".to_vec(), b"apple".to_vec())));
    assert_eq!(a.show(FieldType::Integer), Some(("-3".to_string(), "10".to_string())));
    assert_eq!(a.show(FieldType::Unicode), Some(("-3".to_string(), "apple".to_string())));
    assert_eq!(a.show(FieldType::Float), None);
    assert_eq!(RangeTracker::new().show(FieldType::Integer), None);
}

#[test]
fn merge_matches_one_pass() {
    let samples = ["3", "a", "", "1", "x", "x", "2", "a"];
    let which = everything();
    let (whole, _) = run_column(which, &samples);
    let want = whole.to_record(&empty_floats());
    for k in 1..=samples.len() {
        for split in [1usize, 2, 3] {
            let mut acc: Option<Stats> = None;
            let mut start = 0;
            while start < samples.len() {
                let end = std::cmp::min(samples.len(), start + split.max(k / 2).max(1));
                let (part, _) = run_column(which, &samples[start..end]);
                match acc.as_mut() {
                    None => acc = Some(part),
                    Some(a) => a.merge(part),
                }
                start = end;
            }
            let got = acc.unwrap().to_record(&empty_floats());
            assert_eq!(got, want);
        }
    }
}

#[test]
fn merged_type_is_join() {
    let (mut a, _) = run_column(basic(), &["1", "2"]);
    let (b, _) = run_column(basic(), &["2.5"]);
    a.merge(b);
    assert_eq!(a.typ, FieldType::Float);
}

#[test]
fn merge_all_folds_columns() {
    let mut acc = new_stats(everything(), 2);
    let mut other = new_stats(everything(), 2);
    let r1 = vec![b"1".to_vec(), b"q".to_vec()];
    let r2 = vec![b"7".to_vec(), b"q".to_vec()];
    add_row(&mut acc, &r1, &truncs(&r1));
    add_row(&mut other, &r2, &truncs(&r2));
    merge_all(&mut acc, other);
    let r0 = acc[0].to_record(&empty_floats());
    assert_eq!(&r0[..3], &["Integer".to_string(), "1".to_string(), "7".to_string()]);
    assert_eq!(acc[1].to_record(&empty_floats())[7], "1");
}

#[test]
fn chunk_plans() {
    assert_eq!(chunk_plan(10, 4), (3, 4));
    assert_eq!(chunk_plan(8, 4), (2, 4));
    assert_eq!(chunk_plan(3, 8), (1, 3));
    assert_eq!(chunk_plan(0, 4), (0, 0));
    assert_eq!(chunk_plan(u64::MAX, 2), (u64::MAX / 2 + 1, 2));
    assert_eq!(chunks(10, 3), vec![(0, 3), (3, 3), (6, 3), (9, 1)]);
    assert_eq!(chunks(0, 3), vec![]);
}

#[test]
fn chunks_in_any_worker_count_give_same_record() {
    let samples: Vec<String> = (0..23).map(|i| format!("{}", (i * 7) % 11)).collect();
    let which = everything();
    let (whole, _) = run_column(which, &samples.iter().map(|s| s.as_str()).collect::<Vec<_>>());
    let want = whole.to_record(&empty_floats());
    for workers in 1..6u64 {
        let (size, n) = chunk_plan(samples.len() as u64, workers);
        let parts = chunks(samples.len() as u64, size);
        assert_eq!(parts.len() as u64, n);
        let mut acc = new_stats(which, 1);
        for (start, len) in parts {
            let mut part = new_stats(which, 1);
            for s in &samples[start as usize..(start + len) as usize] {
                let row = vec![s.as_bytes().to_vec()];
                add_row(&mut part, &row, &truncs(&row));
            }
            merge_all(&mut acc, part);
        }
        assert_eq!(acc[0].to_record(&empty_floats()), want);
    }
}

#[test]
fn strategy_and_jobs() {
    assert_eq!(njobs(0, 8), 8);
    assert_eq!(njobs(3, 8), 3);
    assert!(use_parallel(true, 0));
    assert!(use_parallel(true, 4));
    assert!(!use_parallel(true, 1));
    assert!(!use_parallel(false, 4));
}

#[test]
fn headers() {
    assert_eq!(stat_headers(basic()), vec!["field", "type", "min", "max", "mean", "stddev"]);
    assert_eq!(
        stat_headers(everything()),
        vec!["field", "type", "min", "max", "mean", "stddev", "median", "mode", "cardinality"]
    );
}

#[test]
fn online_merge_matches_one_pass() {
    let xs = [1.0f64, 4.0, 9.0, 16.0, 2.5];
    let whole = OnlineStats::from_slice(&xs);
    for k in 0..=xs.len() {
        let mut a = OnlineStats::from_slice(&xs[..k]);
        a.merge(OnlineStats::from_slice(&xs[k..]));
        assert!((a.mean() - whole.mean()).abs() < 1e-9);
        assert!((a.stddev() - whole.stddev()).abs() < 1e-9);
    }
}

#[test]
fn mode_and_cardinality_on_unsorted_input() {
    let mut b = SampleBuffer::new();
    for x in ["c", "a", "b", "a", "c", ""] {
        b.add(x.as_bytes());
    }
    assert_eq!(b.mode(), Some(b"c".to_vec()));
    assert_eq!(b.cardinality(), 4);
}

#[test]
fn mode_and_cardinality_on_many_samples() {
    let mut b = SampleBuffer::new();
    for i in 0..20000u32 {
        b.add(format!("{}", (i * 7919) % 1000).as_bytes());
    }
    b.add(b"999");
    assert_eq!(b.cardinality(), 1000);
    assert_eq!(b.mode(), Some(b"999".to_vec()));
    assert_eq!(b.count_of(b"999"), 21);
}

#[test]
fn float_samples_widen_integer_bounds_by_truncation() {
    let mut r = RangeTracker::new();
    r.add(FieldType::Float, b"2.5", Some(2));
    assert_eq!(r.integers, Some((2, 2)));
    assert_eq!(r.strings, Some((b"2.5".to_vec(), b"2.5".to_vec())));
    r.add(FieldType::Unicode, b"5", None);
    assert_eq!(r.integers, Some((2, 2)));
    r.add(FieldType::Float, b"", None);
    assert_eq!(r.integers, Some((2, 2)));
    r.add(FieldType::Integer, b"-4", None);
    assert_eq!(r.integers, Some((-4, 2)));
    let mut s = Stats::new(basic());
    s.add(b"1.5", truncated(b"1.5"));
    s.add(b"-7.9", truncated(b"-7.9"));
    assert_eq!(s.minmax.as_ref().unwrap().integers, Some((-7, 1)));
}
