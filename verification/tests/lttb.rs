use chrono::{NaiveDate, NaiveTime, Utc};
use lttb::{DataOutput, DataPoint, Dec, DownsampleError, Lttb};

fn first_day_of_month(month_num: u32) -> u64 {
    let dt = NaiveDate::from_ymd_opt(2022, month_num, 1)
        .unwrap()
        .and_time(NaiveTime::default())
        .and_local_timezone(Utc)
        .unwrap();
    u64::try_from(dt.timestamp()).unwrap()
}

#[test]
fn lttb_test_5() {
    let dps = Vec::from([
        DataPoint::new(first_day_of_month(1), Dec::from_int(10)),
        DataPoint::new(first_day_of_month(2), Dec::from_int(12)),
        DataPoint::new(first_day_of_month(3), Dec::from_int(8)),
        DataPoint::new(first_day_of_month(4), Dec::from_int(10)),
        DataPoint::new(first_day_of_month(5), Dec::from_int(12)),
    ]);

    let expected: Vec<DataOutput> = Vec::from([
        DataOutput::from(DataPoint::new(first_day_of_month(1), Dec::from_int(10))),
        DataOutput::from(DataPoint::new(first_day_of_month(3), Dec::from_int(8))),
        DataOutput::from(DataPoint::new(first_day_of_month(5), Dec::from_int(12))),
    ]);

    assert_eq!(expected, dps.downsample(3).unwrap());
}

#[test]
fn lttb_test_12() {
    let dps = Vec::from([
        DataPoint::new(first_day_of_month(1), Dec::from_int(10)),
        DataPoint::new(first_day_of_month(2), Dec::from_int(12)),
        DataPoint::new(first_day_of_month(3), Dec::from_int(8)),
        DataPoint::new(first_day_of_month(4), Dec::from_int(10)),
        DataPoint::new(first_day_of_month(5), Dec::from_int(12)),
        DataPoint::new(first_day_of_month(6), Dec::from_int(10)),
        DataPoint::new(first_day_of_month(7), Dec::from_int(12)),
        DataPoint::new(first_day_of_month(8), Dec::from_int(8)),
        DataPoint::new(first_day_of_month(9), Dec::from_int(10)),
        DataPoint::new(first_day_of_month(10), Dec::from_int(12)),
        DataPoint::new(first_day_of_month(11), Dec::from_int(12)),
        DataPoint::new(first_day_of_month(12), Dec::from_int(12)),
    ]);

    let expected: Vec<DataOutput> = Vec::from([
        DataOutput::from(DataPoint::new(first_day_of_month(1), Dec::from_int(10))),
        DataOutput::from(DataPoint::new(first_day_of_month(3), Dec::from_int(8))),
        DataOutput::from(DataPoint::new(first_day_of_month(7), Dec::from_int(12))),
        DataOutput::from(DataPoint::new(first_day_of_month(12), Dec::from_int(12))),
    ]);

    assert_eq!(expected, dps.downsample(4).unwrap());
}

fn series(ys: &[i64]) -> Vec<DataPoint> {
    ys.iter()
        .enumerate()
        .map(|(i, y)| DataPoint::new(i as u64, Dec::from_int(*y)))
        .collect()
}

fn outputs_of(dps: &[DataPoint]) -> Vec<DataOutput> {
    dps.iter().map(|p| DataOutput::from(*p)).collect()
}

#[test]
fn identity_on_zero_threshold() {
    let dps = series(&[3, -1, 4, 1, 5]);
    let expected = outputs_of(&dps);
    assert_eq!(expected, dps.downsample(0).unwrap());
}

#[test]
fn identity_when_threshold_reaches_length() {
    let dps = series(&[3, -1, 4, 1, 5]);
    let expected = outputs_of(&dps);
    assert_eq!(expected, dps.clone().downsample(5).unwrap());
    assert_eq!(expected, dps.downsample(17).unwrap());
}

#[test]
fn identity_keeps_fractional_values() {
    let dps = Vec::from([
        DataPoint::new(7, Dec::new(105, 1).unwrap()),
        DataPoint::new(9, Dec::new(-25, 2).unwrap()),
    ]);
    let out = dps.clone().downsample(0).unwrap();
    assert_eq!(out.len(), 2);
    assert_eq!(out[0].x, 7);
    assert_eq!(out[0].y, Dec::new(105, 1).unwrap());
    assert_eq!(out[1].x, 9);
    assert_eq!(out[1].y, Dec::new(-25, 2).unwrap());
}

#[test]
fn two_points_returned_unchanged() {
    let dps = Vec::from([
        DataPoint::new(100, Dec::from_int(42)),
        DataPoint::new(200, Dec::from_int(-7)),
    ]);
    let expected = outputs_of(&dps);
    assert_eq!(expected, dps.clone().downsample(2).unwrap());
    assert_eq!(expected, dps.clone().downsample(3).unwrap());
    assert_eq!(expected, dps.downsample(1000).unwrap());
}

#[test]
fn threshold_one_is_invalid_when_reducing() {
    let dps = series(&[1, 2, 3]);
    assert_eq!(dps.downsample(1), Err(DownsampleError::InvalidThreshold));
}

#[test]
fn threshold_two_is_invalid_when_reducing() {
    let dps = series(&[1, 2, 3, 4]);
    assert_eq!(dps.downsample(2), Err(DownsampleError::InvalidThreshold));
}

#[test]
fn output_size_is_exactly_threshold() {
    let dps = series(&[5, 1, 9, -3, 7, 2, 8, 0, 6, 4]);
    let out = dps.downsample(5).unwrap();
    assert_eq!(out.len(), 5);
}

#[test]
fn endpoints_are_preserved() {
    let dps = series(&[5, 1, 9, -3, 7, 2, 8, 0, 6, 4]);
    let first = DataOutput::from(dps[0]);
    let last = DataOutput::from(dps[9]);
    let out = dps.downsample(4).unwrap();
    assert_eq!(out[0], first);
    assert_eq!(out[3], last);
}

#[test]
fn output_x_strictly_increasing() {
    let dps = series(&[5, 1, 9, -3, 7, 2, 8, 0, 6, 4]);
    let out = dps.downsample(6).unwrap();
    for w in out.windows(2) {
        assert!(w[0].x < w[1].x);
    }
}

#[test]
fn repeated_calls_agree() {
    let dps = series(&[5, 1, 9, -3, 7, 2, 8, 0, 6, 4]);
    let once = dps.clone().downsample(4).unwrap();
    let twice = dps.downsample(4).unwrap();
    assert_eq!(once, twice);
}

// The bucket average decides this selection: y = [-2,-5,1,6,1,1] with one
// interior bucket keeps index 3, not the first or highest-y candidate.
#[test]
fn selection_follows_bucket_average() {
    let dps = series(&[-2, -5, 1, 6, 1, 1]);
    let expected = outputs_of(&[dps[0], dps[3], dps[5]]);
    assert_eq!(expected, dps.downsample(3).unwrap());
}

// Here the mean (not the bare sum) of the next bucket decides which of
// the candidates wins.
#[test]
fn selection_uses_mean_not_sum() {
    let dps = series(&[-6, -3, -6, 0, -4, -6]);
    let expected = outputs_of(&[dps[0], dps[2], dps[3], dps[5]]);
    assert_eq!(expected, dps.downsample(4).unwrap());
}

#[test]
fn sum_overflow_is_reported() {
    let huge = Dec::new(79_228_162_514_264_337_593_543_950_335, 0).unwrap();
    let dps = Vec::from([
        DataPoint::new(0, Dec::from_int(0)),
        DataPoint::new(1, Dec::from_int(1)),
        DataPoint::new(2, Dec::from_int(2)),
        DataPoint::new(3, huge),
        DataPoint::new(4, huge),
        DataPoint::new(5, Dec::from_int(5)),
    ]);
    assert_eq!(dps.downsample(4), Err(DownsampleError::ArithmeticOverflow));
}

#[test]
fn dec_new_rejects_values_outside_the_domain() {
    assert!(Dec::new(79_228_162_514_264_337_593_543_950_336, 0).is_none());
    assert!(Dec::new(-79_228_162_514_264_337_593_543_950_336, 0).is_none());
    assert!(Dec::new(1, 29).is_none());
    assert!(Dec::new(79_228_162_514_264_337_593_543_950_335, 28).is_some());
}

#[test]
fn data_point_stores_epoch_seconds_exactly() {
    let p = DataPoint::new(1_640_995_200, Dec::from_int(10));
    assert_eq!(p.x.mantissa, 1_640_995_200);
    assert_eq!(p.x.scale, 0);
    assert_eq!(p.y, Dec::from_int(10));
    let o = DataOutput::from(p);
    assert_eq!(o.x, 1_640_995_200);
    assert_eq!(o.y, Dec::from_int(10));
}
