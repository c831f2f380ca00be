use hdrhistogram::serialization::interval_log::{IntervalLogWriterBuilder, Tag};
use hdrhistogram::serialization::{V2DeflateSerializer, V2Serializer};
use hdrhistogram::Histogram;
use orchestration::aggregate::{window_end_secs, Aggregator, MergeError};
use orchestration::hist::{Hist, Histograms, Timeline};
use orchestration::interval::{operation_end, plan, DecodeError, IntervalLine, LogLine, Metric};
use std::time::{Duration, SystemTime};

fn hist_of(values: &[u64]) -> Hist {
    let mut inner = Histogram::<u64>::new_with_bounds(1, 60_000_000, 3).unwrap();
    for &v in values {
        inner.record(v).unwrap();
    }
    Hist { inner }
}

fn window(processing: &[u64], sojourn: &[u64]) -> Histograms {
    Histograms { processing: hist_of(processing), sojourn: hist_of(sojourn) }
}

fn same(a: &Timeline, b: &Timeline) -> bool {
    a.last_end == b.last_end
        && a.histograms.len() == b.histograms.len()
        && a.histograms.iter().zip(b.histograms.iter()).all(|(x, y)| {
            x.processing.inner == y.processing.inner && x.sojourn.inner == y.sojourn.inner
        })
}

fn timeline(windows: Vec<Histograms>, last_end: u128) -> Timeline {
    Timeline { histograms: windows, last_end }
}

#[test]
fn histograms_merge_adds_counts() {
    let mut a = window(&[1000], &[2000]);
    let b = window(&[1000, 3000], &[]);
    assert!(a.can_merge(&b));
    a.merge(&b);
    assert_eq!(a.processing.inner.len(), 3);
    assert_eq!(a.processing.inner.count_at(1000), 2);
    assert_eq!(a.sojourn.inner.len(), 1);
}

#[test]
fn histograms_default_is_empty() {
    let h = Histograms::default();
    assert!(h.is_empty(Metric::Processing));
    assert!(h.is_empty(Metric::Sojourn));
    assert_eq!(h.processing.inner.high(), 60_000_000);
}

#[test]
fn timeline_merge_is_commutative() {
    let a = timeline(vec![window(&[10], &[20]), window(&[30], &[])], 3_000_000_000);
    let b = timeline(vec![window(&[11], &[21])], 1_500_000_000);
    let mut ab = a.duplicate();
    ab.merge(&b);
    let mut ba = b.duplicate();
    ba.merge(&a);
    assert!(same(&ab, &ba));
    assert_eq!(ab.histograms.len(), 2);
    assert_eq!(ab.histograms[0].processing.inner.len(), 2);
    assert_eq!(ab.last_end, 3_000_000_000);
}

#[test]
fn timeline_merge_is_associative() {
    let a = timeline(vec![window(&[10], &[20])], 1);
    let b = timeline(vec![window(&[11], &[]), window(&[12], &[13])], 2);
    let c = timeline(vec![window(&[], &[14]), window(&[], &[]), window(&[15], &[])], 3);
    let mut left = a.duplicate();
    left.merge(&b);
    left.merge(&c);
    let mut bc = b.duplicate();
    bc.merge(&c);
    let mut right = a.duplicate();
    right.merge(&bc);
    assert!(same(&left, &right));
    assert_eq!(left.histograms.len(), 3);
}

#[test]
fn timeline_merge_with_empty_is_identity() {
    let a = timeline(vec![window(&[10], &[20])], 7);
    let mut x = a.duplicate();
    x.merge(&Timeline::new());
    assert!(same(&x, &a));
    let mut y = Timeline::new();
    y.merge(&a);
    assert!(same(&y, &a));
}

#[test]
fn collapse_adds_all_windows() {
    let t = timeline(vec![window(&[10], &[20]), window(&[30, 40], &[50])], 0);
    assert!(t.can_collapse());
    let c = t.collapse();
    assert_eq!(c.processing.inner.len(), 3);
    assert_eq!(c.sojourn.inner.len(), 2);
    let empty = Timeline::new().collapse();
    assert!(empty.is_empty(Metric::Processing));
}

#[test]
fn window_end_is_capped_by_last_end() {
    // windows end at 1s, 2s, 4s, 8s
    assert_eq!(window_end_secs(10_000_000_000, 0), 1);
    assert_eq!(window_end_secs(10_000_000_000, 3), 8);
    assert_eq!(window_end_secs(5_500_000_000, 3), 5);
    assert_eq!(window_end_secs(u128::MAX, 200), u128::MAX / 1_000_000_000);
}

fn entry(start: u64, tag: &str) -> LogLine {
    LogLine::Interval(IntervalLine {
        tag: Some(tag.to_string()),
        start_secs: start,
        start_nanos: 0,
        duration_secs: 1,
        duration_nanos: 0,
        payload: String::new(),
    })
}

#[test]
fn operation_ends_at_next_zero_start_after_nonzero() {
    let es = vec![
        entry(0, "processing"),
        entry(0, "sojourn"),
        entry(1, "processing"),
        entry(1, "sojourn"),
        entry(0, "processing"),
        entry(0, "sojourn"),
    ];
    assert_eq!(operation_end(&es, 0), 4);
    assert_eq!(operation_end(&es, 4), 6);
    let ps = plan(&es, 2).unwrap();
    assert_eq!(ps[4].op, 1);
    assert_eq!(ps[4].window, 0);
    assert_eq!(ps[3].op, 0);
    assert_eq!(ps[3].window, 1);
    assert_eq!(ps[3].metric, Metric::Sojourn);
}

#[test]
fn plan_reports_structural_errors() {
    let es = vec![entry(0, "processing"), entry(0, "latency")];
    assert_eq!(plan(&es, 1), Err(DecodeError::UnknownTag { entry: 1 }));
    let es = vec![entry(0, "processing"), LogLine::StartTime];
    assert_eq!(plan(&es, 1), Err(DecodeError::NotInterval { entry: 1 }));
    let es = vec![entry(0, "processing"), entry(0, "sojourn"), entry(2, "processing")];
    assert_eq!(plan(&es, 1), Err(DecodeError::WindowStart { op: 0, entry: 2 }));
    let es = vec![
        entry(0, "processing"),
        entry(0, "sojourn"),
        entry(1, "processing"),
        entry(0, "processing"),
    ];
    assert_eq!(plan(&es, 1), Err(DecodeError::TrailingHistograms { entry: 3 }));
}

fn write_log(records: &[(u64, &str, &[u64])]) -> Vec<u8> {
    let mut buf = Vec::new();
    let mut ser = V2Serializer::new();
    {
        let mut w = IntervalLogWriterBuilder::new()
            .with_base_time(SystemTime::UNIX_EPOCH)
            .begin_log_with(&mut buf, &mut ser)
            .unwrap();
        for &(start, tag, values) in records {
            let h = hist_of(values);
            w.write_histogram(
                &h.inner,
                Duration::from_secs(start),
                Duration::from_secs(if start == 0 { 1 } else { start }),
                Tag::new(tag),
            )
            .unwrap();
        }
    }
    buf
}

fn timeline_named<'a>(agg: &'a Aggregator, name: &str) -> &'a Timeline {
    let i = agg.names.iter().position(|n| n == name).unwrap();
    &agg.timelines[i]
}

#[test]
fn decode_attributes_second_zero_window_to_next_operation() {
    let log = write_log(&[
        (0, "processing", &[100]),
        (0, "sojourn", &[200]),
        (1, "processing", &[300]),
        (1, "sojourn", &[400]),
        (0, "processing", &[500, 501]),
        (0, "sojourn", &[600]),
        (1, "processing", &[700]),
        (1, "sojourn", &[800]),
    ]);
    let mut agg = Aggregator::new();
    let ops = vec!["op1".to_string(), "op2".to_string()];
    assert_eq!(agg.decode_log(&log, &ops), Ok(()));
    let op1 = timeline_named(&agg, "op1");
    let op2 = timeline_named(&agg, "op2");
    assert_eq!(op1.histograms.len(), 2);
    assert_eq!(op2.histograms.len(), 2);
    assert_eq!(op1.histograms[0].processing.inner.len(), 1);
    assert_eq!(op2.histograms[0].processing.inner.len(), 2);
    assert_eq!(op2.histograms[0].processing.inner.count_at(500), 1);
    assert_eq!(op1.histograms[1].sojourn.inner.count_at(400), 1);
    assert_eq!(op1.last_end, 2_000_000_000);
}

#[test]
fn decode_single_window_collapses_to_one_and_two_ms() {
    let log = write_log(&[(0, "processing", &[1000]), (0, "sojourn", &[2000])]);
    let mut agg = Aggregator::new();
    assert_eq!(agg.decode_log(&log, &vec!["writes".to_string(), "reads".to_string()]), Ok(()));
    assert_eq!(agg.names, vec!["writes".to_string()]);
    let all = agg.merge_all().unwrap();
    agg.insert("all".to_string(), all);
    for t in &agg.timelines {
        let c = t.collapse();
        let p: Vec<f64> = c
            .processing
            .inner
            .iter_quantiles(4)
            .map(|v| v.value_iterated_to() as f64 / 1000.0)
            .collect();
        let s: Vec<f64> = c
            .sojourn
            .inner
            .iter_quantiles(4)
            .map(|v| v.value_iterated_to() as f64 / 1000.0)
            .collect();
        assert!(p.contains(&1.0));
        assert!(s.contains(&2.0));
        assert!(p.iter().all(|&x| x == 1.0));
    }
    assert_eq!(agg.names.len(), 2);
}

#[test]
fn decode_rejects_log_without_base_time() {
    let mut agg = Aggregator::new();
    let text = b"0.000,1.000,1.000,HISTFAAAAA==\n".to_vec();
    assert_eq!(
        agg.decode_log(&text, &vec!["writes".to_string()]),
        Err(DecodeError::MissingBaseTime)
    );
    assert_eq!(agg.decode_log(b"", &vec![]), Err(DecodeError::MissingBaseTime));
}

#[test]
fn decode_rejects_bad_payload() {
    let mut agg = Aggregator::new();
    let text = b"#[BaseTime: 0.000 (seconds since epoch)]\nTag=processing,0.000,1.000,1.000,!!!!\n".to_vec();
    assert_eq!(
        agg.decode_log(&text, &vec!["writes".to_string()]),
        Err(DecodeError::BadPayload { entry: 0 })
    );
}

#[test]
fn decode_rejects_other_bucket_configuration() {
    let mut other = Histogram::<u64>::new_with_bounds(1, 1_000, 2).unwrap();
    other.record(10).unwrap();
    let mut buf = Vec::new();
    let mut ser = V2Serializer::new();
    {
        let mut w = IntervalLogWriterBuilder::new()
            .with_base_time(SystemTime::UNIX_EPOCH)
            .begin_log_with(&mut buf, &mut ser)
            .unwrap();
        w.write_histogram(&other, Duration::from_secs(0), Duration::from_secs(1), Tag::new("processing"))
            .unwrap();
    }
    let mut agg = Aggregator::new();
    assert_eq!(
        agg.decode_log(&buf, &vec!["writes".to_string()]),
        Err(DecodeError::ConfigMismatch { entry: 0 })
    );
}

#[test]
fn decode_rejects_trailing_histograms() {
    let log = write_log(&[
        (0, "processing", &[1]),
        (0, "sojourn", &[1]),
        (1, "processing", &[1]),
        (0, "processing", &[1]),
    ]);
    let mut agg = Aggregator::new();
    assert_eq!(
        agg.decode_log(&log, &vec!["writes".to_string()]),
        Err(DecodeError::TrailingHistograms { entry: 3 })
    );
}

#[test]
fn merge_all_of_nothing_is_an_error() {
    let agg = Aggregator::new();
    assert!(matches!(agg.merge_all(), Err(MergeError::Empty)));
}

#[test]
fn decode_rejects_payload_with_overflowing_count() {
    let mut raw = Vec::new();
    raw.extend_from_slice(&0x1c84_9313u32.to_be_bytes());
    raw.extend_from_slice(&10u32.to_be_bytes());
    raw.extend_from_slice(&0u32.to_be_bytes());
    raw.extend_from_slice(&3u32.to_be_bytes());
    raw.extend_from_slice(&1u64.to_be_bytes());
    raw.extend_from_slice(&60_000_000u64.to_be_bytes());
    raw.extend_from_slice(&1.0f64.to_be_bytes());
    raw.extend_from_slice(&[0xff; 9]);
    raw.push(0x02);
    let text = format!(
        "#[BaseTime: 0.000 (seconds since epoch)]\nTag=processing,0.000,1.000,1.000,{}\n",
        base64::encode(&raw)
    );
    let mut agg = Aggregator::new();
    assert_eq!(
        agg.decode_log(text.as_bytes(), &vec!["writes".to_string()]),
        Err(DecodeError::BadPayload { entry: 0 })
    );
    assert!(agg.names.is_empty());
}

#[test]
fn decode_reads_compressed_histograms() {
    let mut buf = Vec::new();
    let mut ser = V2DeflateSerializer::new();
    {
        let mut w = IntervalLogWriterBuilder::new()
            .with_base_time(SystemTime::UNIX_EPOCH)
            .begin_log_with(&mut buf, &mut ser)
            .unwrap();
        w.write_histogram(&hist_of(&[1000, 1000]).inner, Duration::from_secs(0), Duration::from_secs(1), Tag::new("processing"))
            .unwrap();
        w.write_histogram(&hist_of(&[2000]).inner, Duration::from_secs(0), Duration::from_secs(1), Tag::new("sojourn"))
            .unwrap();
    }
    let mut agg = Aggregator::new();
    assert_eq!(agg.decode_log(&buf, &vec!["writes".to_string()]), Ok(()));
    let t = timeline_named(&agg, "writes");
    assert_eq!(t.histograms[0].processing.inner.count_at(1000), 2);
    assert_eq!(t.histograms[0].sojourn.inner.count_at(2000), 1);
}

#[test]
fn decode_keeps_earlier_entries_after_an_error() {
    let good = write_log(&[(0, "processing", &[1000])]);
    let mut text = String::from_utf8(good).unwrap();
    text.push_str("Tag=sojourn,0.000,1.000,1.000,!!!!\n");
    let mut agg = Aggregator::new();
    assert_eq!(
        agg.decode_log(text.as_bytes(), &vec!["writes".to_string()]),
        Err(DecodeError::BadPayload { entry: 1 })
    );
    assert_eq!(timeline_named(&agg, "writes").histograms[0].processing.inner.len(), 1);
}
