use benchy::{Benchy, Data};

// The row a value falls into and the width of that row's buckets, written
// out plainly for checking round trips from the outside.
fn expected_row(v: u128) -> u32 {
    let mut row = 0u32;
    let mut x = v;
    while x >= 64 {
        x >>= 1;
        row += 1;
    }
    row
}

fn expected_width(row: u32) -> u128 {
    if row == 0 {
        1
    } else {
        1u128 << (row - 1)
    }
}

#[test]
fn exact_order_statistics_row0() {
    // Every value below 64 occupies its own bucket, so rank queries are exact.
    let mut d = Data::new();
    for v in [3u128, 1, 4, 1, 5] {
        d.register_val(v);
    }
    assert_eq!(d.nth_from_low(0), Some(1));
    assert_eq!(d.nth_from_low(1), Some(1));
    assert_eq!(d.nth_from_low(2), Some(3));
    assert_eq!(d.nth_from_low(3), Some(4));
    assert_eq!(d.nth_from_low(4), Some(5));
    assert_eq!(d.nth_from_low(5), None);
    assert_eq!(d.median(), Some(3));
    assert_eq!(d.percentile(0), Some(1));
}

#[test]
fn nth_zero_returns_minimum() {
    // Samples inserted in increasing order: rank zero answers the minimum,
    // exactly for a bucket-aligned value, within the bucket width otherwise.
    let mut d = Data::new();
    for v in [100u128, 200, 300] {
        d.register_val(v);
    }
    assert_eq!(d.nth_from_low(0), Some(100));

    let mut d2 = Data::new();
    for v in [1001u128, 2000, 4000] {
        d2.register_val(v);
    }
    let lo = d2.nth_from_low(0).unwrap();
    let w = expected_width(expected_row(1001));
    assert!(lo <= 1001 && 1001 < lo + w);
}

#[test]
fn nth_from_high_consistency() {
    let mut d = Data::new();
    for i in 0..100u128 {
        d.register_val(i * 37 % 1000);
    }
    for k in 0..=100usize {
        assert_eq!(d.nth_from_high(k), d.nth_from_low(100 - k));
    }
    assert_eq!(d.nth_from_high(101), None);
}

#[test]
fn percentile_monotone() {
    let mut d = Data::new();
    for i in 0..500u128 {
        d.register_val(i * 13 % 4096);
    }
    for p in 0..100usize {
        let a = d.percentile(p);
        let b = d.percentile(p + 1);
        if let (Some(x), Some(y)) = (a, b) {
            assert!(x <= y, "percentile({}) = {} > percentile({}) = {}", p, x, p + 1, y);
        }
    }
}

#[test]
fn read_queries_idempotent() {
    let mut d = Data::new();
    for v in [5u128, 70, 70, 900, 12345] {
        d.register_val(v);
    }
    assert_eq!(d.percentile(40), d.percentile(40));
    assert_eq!(d.median(), d.median());
    assert_eq!(d.mode(), d.mode());
    assert_eq!(d.mean(), d.mean());
    assert_eq!(d.nth_from_low(2), d.nth_from_low(2));
    assert_eq!(d.nth_from_high(2), d.nth_from_high(2));
}

#[test]
fn bucket_round_trip() {
    // For representable values, the lower bound of the bucket a value maps to
    // is at most the value and within one bucket width below it.
    for v in [
        0u128,
        1,
        63,
        64,
        65,
        127,
        128,
        1000,
        1023,
        123_456,
        (1u128 << 25) - 1,
    ] {
        let mut d = Data::new();
        d.register_val(v);
        let lo = d.nth_from_low(0).unwrap();
        let w = expected_width(expected_row(v));
        assert!(lo <= v && v < lo + w, "v={} lo={} w={}", v, lo, w);
    }
}

#[test]
fn thousand_values() {
    let mut d = Data::new();
    for i in 0..1024u128 {
        d.register_val(i);
    }
    assert_eq!(d.percentile(0), Some(0));
    assert_eq!(d.median(), Some(512));
    // rank count itself is past the last sample, so the query has no answer;
    // the largest sample is reached from the other end
    assert_eq!(d.percentile(100), None);
    assert_eq!(d.nth_from_high(1), Some(1023));
    assert_eq!(d.percentile(99), Some(1013));
}

#[test]
fn run_of_five_steps() {
    let mut b = Benchy::new_n("run5", 5, 0);
    for k in 0..5u128 {
        let r = b.step(k + 1);
        assert_eq!(r, Some(k as usize));
        assert!(!b.is_stopped());
    }
    let r = b.step(6);
    assert_eq!(r, None);
    assert!(b.is_stopped());
    let report = b.report();
    assert_eq!(
        "run5: usecs=6, cnt=5, avg=1.000, median=1, mode=1, stdev=0.000, min/max=1/1",
        report
    );
    // a step past the stop changes nothing and emits nothing new
    let again = b.step(7);
    assert_eq!(again, None);
    assert_eq!(b.steps(), 6);
    assert_eq!(b.data().count(), 6);
    assert_eq!(report, b.report());
}

#[test]
fn dropped_interval_still_counts_a_step() {
    // an interval past the representable limit is dropped from the histogram
    // but still advances the run: the index moves on and an iteration bound
    // stays a bound on calls
    let mut b = Benchy::new_n("long", 5, 0);
    assert_eq!(b.step(0), Some(0));
    assert_eq!(b.step(1), Some(1));
    let r = b.step(1 + (1u128 << 25));
    assert_eq!(r, Some(2));
    assert_eq!(b.steps(), 3);
    assert_eq!(b.data().count(), 2);
    assert_eq!(b.data().dropped(), 1);
    assert_eq!(b.step(2 + (1u128 << 25)), Some(3));
    assert_eq!(b.step(3 + (1u128 << 25)), Some(4));
    assert_eq!(b.step(4 + (1u128 << 25)), None);
    assert!(b.is_stopped());
    assert_eq!(b.steps(), 6);
}

#[test]
fn verbose_dump_rows() {
    let empty = Data::new();
    let mut expected = String::new();
    for row in 0..20 {
        expected.push_str(&format!("{}:[0]\n", row));
    }
    assert_eq!(expected, empty.dump());

    let mut d = Data::new();
    d.register_val(5);
    let dump = d.dump();
    let lines: Vec<&str> = dump.lines().collect();
    assert_eq!(lines.len(), 20);
    assert!(lines[0].starts_with("0:[0, 0, 0, 0, 0, 1, 0"));
    assert_eq!(lines[1], "1:[0]");
    assert_eq!(lines[19], "19:[0]");
}

#[test]
fn immediate_stop_without_condition() {
    let mut b = Benchy::new_duration("d0", 0, 0);
    assert_eq!(b.step(0), None);
    assert!(b.is_stopped());
}

#[test]
fn zero_then_one_sample() {
    let mut d = Data::new();
    assert_eq!("(initialized)", d.summary());
    assert_eq!(d.mean(), None);
    assert_eq!(d.median(), None);
    d.register_val(7);
    assert_eq!("(no data)", d.summary());
    assert_eq!(d.mean(), None);
    assert_eq!(d.min(), 7);
    assert_eq!(d.max(), 7);
}

#[test]
fn oversized_sample_dropped() {
    let mut d = Data::new();
    d.register_val(5);
    assert_eq!(d.count(), 1);
    d.register_val(1u128 << 25);
    d.register_val(u128::MAX);
    assert_eq!(d.count(), 1);
    assert_eq!(d.dropped(), 2);
    assert_eq!(d.min(), 5);
    assert_eq!(d.max(), 5);
    let mut total = 0u64;
    for row in 0..20 {
        for col in 0..64 {
            total += d.bucket_count(row, col) as u64;
        }
    }
    assert_eq!(total, 1);
    assert_eq!(d.bucket_count(0, 5), 1);
}

#[test]
fn mean_scaled_by_thousand() {
    let mut d = Data::new();
    d.register_val(2);
    assert_eq!(d.mean(), None);
    d.register_val(4);
    assert_eq!(d.mean(), Some(3000));
    d.register_val(4);
    assert_eq!(d.mean(), Some(3333));
}

#[test]
fn mode_is_density_weighted() {
    let mut d = Data::new();
    for _ in 0..10 {
        d.register_val(5);
    }
    for _ in 0..12 {
        d.register_val(1000);
    }
    // 12 samples in a wide bucket weigh less than 10 in an exact one
    assert_eq!(d.mode(), Some(5));
    let empty = Data::new();
    assert_eq!(empty.mode(), None);
}

#[test]
fn out_of_range_queries_absent() {
    let mut d = Data::new();
    d.register_val(10);
    assert_eq!(d.percentile(101), None);
    assert_eq!(d.nth_from_low(1), None);
    assert_eq!(d.nth_from_high(2), None);
    let empty = Data::new();
    assert_eq!(empty.percentile(50), None);
    assert_eq!(empty.nth_from_low(0), None);
}

#[test]
fn bucket_bounds_by_index() {
    assert_eq!(Data::idx2val(5, 0), Some(5));
    assert_eq!(Data::idx2val(0, 1), Some(64));
    assert_eq!(Data::idx2val(63, 1), Some(127));
    assert_eq!(Data::idx2val(0, 2), Some(128));
    assert_eq!(Data::idx2val(64, 1), Some(128));
    assert_eq!(Data::idx2val(63, 19), Some(127u128 << 18));
}

#[test]
fn boundary_values_bucketed() {
    let mut d = Data::new();
    d.register_val(63);
    d.register_val(64);
    assert_eq!(d.bucket_count(0, 63), 1);
    assert_eq!(d.bucket_count(1, 0), 1);
}
