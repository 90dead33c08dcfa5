use whisper::{AggregationType, Candidates, Header, Point, Schema, WhisperFile, WriteState};

const SAMPLE_EMPTY_FILE: [u8; 88] = [
    0x00, 0x00, 0x00, 0x01, 0x00, 0x00, 0x01, 0x2C, 0x3F, 0x00, 0x00, 0x00,
    0x00, 0x00, 0x00, 0x01, 0x00, 0x00, 0x00, 0x1C, 0x00, 0x00, 0x00, 0x3C,
    0x00, 0x00, 0x00, 0x05, 0x00, 0x00, 0x00, 0x00, 0x00, 0x00, 0x00, 0x00,
    0x00, 0x00, 0x00, 0x00, 0x00, 0x00, 0x00, 0x00, 0x00, 0x00, 0x00, 0x00,
    0x00, 0x00, 0x00, 0x00, 0x00, 0x00, 0x00, 0x00, 0x00, 0x00, 0x00, 0x00,
    0x00, 0x00, 0x00, 0x00, 0x00, 0x00, 0x00, 0x00, 0x00, 0x00, 0x00, 0x00,
    0x00, 0x00, 0x00, 0x00, 0x00, 0x00, 0x00, 0x00, 0x00, 0x00, 0x00, 0x00,
    0x00, 0x00, 0x00, 0x00,
];

const SAMPLE_FILE_1: [u8; 280] = [
    0x00, 0x00, 0x00, 0x01, 0x00, 0x00, 0x00, 0xb4, 0x00, 0x00, 0x00, 0x00,
    0x00, 0x00, 0x00, 0x03, 0x00, 0x00, 0x00, 0x34, 0x00, 0x00, 0x00, 0x01,
    0x00, 0x00, 0x00, 0x0a, 0x00, 0x00, 0x00, 0xac, 0x00, 0x00, 0x00, 0x0a,
    0x00, 0x00, 0x00, 0x06, 0x00, 0x00, 0x00, 0xf4, 0x00, 0x00, 0x00, 0x3c,
    0x00, 0x00, 0x00, 0x03, 0x58, 0xb0, 0xb2, 0x2a, 0x3f, 0xf0, 0x00, 0x00,
    0x00, 0x00, 0x00, 0x00, 0x58, 0xb0, 0xb2, 0x35, 0x40, 0x50, 0x40, 0x00,
    0x00, 0x00, 0x00, 0x00, 0x58, 0xb0, 0xb2, 0x2c, 0x40, 0x08, 0x00, 0x00,
    0x00, 0x00, 0x00, 0x00, 0x00, 0x00, 0x00, 0x00, 0x00, 0x00, 0x00, 0x00,
    0x00, 0x00, 0x00, 0x00, 0x58, 0xb0, 0xb2, 0x38, 0x40, 0x5e, 0x80, 0x00,
    0x00, 0x00, 0x00, 0x00, 0x58, 0xb0, 0xb2, 0x2f, 0x40, 0x22, 0x00, 0x00,
    0x00, 0x00, 0x00, 0x00, 0x58, 0xb0, 0xb2, 0x3a, 0x40, 0x60, 0xa0, 0x00,
    0x00, 0x00, 0x00, 0x00, 0x00, 0x00, 0x00, 0x00, 0x00, 0x00, 0x00, 0x00,
    0x00, 0x00, 0x00, 0x00, 0x58, 0xb0, 0xb2, 0x32, 0x40, 0x2e, 0x00, 0x00,
    0x00, 0x00, 0x00, 0x00, 0x00, 0x00, 0x00, 0x00, 0x00, 0x00, 0x00, 0x00,
    0x00, 0x00, 0x00, 0x00, 0x58, 0xb0, 0xb2, 0x26, 0x40, 0x11, 0x55, 0x55,
    0x55, 0x55, 0x55, 0x55, 0x58, 0xb0, 0xb2, 0x30, 0x40, 0x50, 0xd5, 0x55,
    0x55, 0x55, 0x55, 0x55, 0x58, 0xb0, 0xb2, 0x3a, 0x40, 0x60, 0xa0, 0x00,
    0x00, 0x00, 0x00, 0x00, 0x00, 0x00, 0x00, 0x00, 0x00, 0x00, 0x00, 0x00,
    0x00, 0x00, 0x00, 0x00, 0x00, 0x00, 0x00, 0x00, 0x00, 0x00, 0x00, 0x00,
    0x00, 0x00, 0x00, 0x00, 0x00, 0x00, 0x00, 0x00, 0x00, 0x00, 0x00, 0x00,
    0x00, 0x00, 0x00, 0x00, 0x58, 0xb0, 0xb2, 0x08, 0x40, 0x51, 0x0e, 0x38,
    0xe3, 0x8e, 0x38, 0xe3, 0x00, 0x00, 0x00, 0x00, 0x00, 0x00, 0x00, 0x00,
    0x00, 0x00, 0x00, 0x00, 0x00, 0x00, 0x00, 0x00, 0x00, 0x00, 0x00, 0x00,
    0x00, 0x00, 0x00, 0x00,
];

const SAMPLE_FILE_2: [u8; 256] = [
    0x00, 0x00, 0x00, 0x01, 0x00, 0x00, 0x00, 0xb4, 0x3e, 0xa8, 0xf5, 0xc3,
    0x00, 0x00, 0x00, 0x03, 0x00, 0x00, 0x00, 0x34, 0x00, 0x00, 0x00, 0x01,
    0x00, 0x00, 0x00, 0x06, 0x00, 0x00, 0x00, 0x7c, 0x00, 0x00, 0x00, 0x06,
    0x00, 0x00, 0x00, 0x05, 0x00, 0x00, 0x00, 0xb8, 0x00, 0x00, 0x00, 0x1e,
    0x00, 0x00, 0x00, 0x06, 0x58, 0xb0, 0xca, 0xfe, 0x3f, 0xe6, 0xb8, 0x51,
    0xeb, 0x85, 0x1e, 0xb8, 0x58, 0xb0, 0xcb, 0x0b, 0x3f, 0xc5, 0xc2, 0x8f,
    0x5c, 0x28, 0xf5, 0xc3, 0x58, 0xb0, 0xcb, 0x12, 0x3f, 0xe9, 0x47, 0xae,
    0x14, 0x7a, 0xe1, 0x48, 0x58, 0xb0, 0xcb, 0x07, 0x3f, 0xd5, 0x1e, 0xb8,
    0x51, 0xeb, 0x85, 0x1f, 0x58, 0xb0, 0xcb, 0x14, 0x3f, 0xe7, 0x0a, 0x3d,
    0x70, 0xa3, 0xd7, 0x0a, 0x58, 0xb0, 0xcb, 0x0f, 0x3f, 0xed, 0x1e, 0xb8,
    0x51, 0xeb, 0x85, 0x1f, 0x58, 0xb0, 0xca, 0xf8, 0x3f, 0xdf, 0x5c, 0x28,
    0xf5, 0xc2, 0x8f, 0x5c, 0x58, 0xb0, 0xca, 0xfe, 0x3f, 0xe2, 0x06, 0xd3,
    0xa0, 0x6d, 0x3a, 0x07, 0x00, 0x00, 0x00, 0x00, 0x00, 0x00, 0x00, 0x00,
    0x00, 0x00, 0x00, 0x00, 0x58, 0xb0, 0xcb, 0x0a, 0x3f, 0xe1, 0x47, 0xae,
    0x14, 0x7a, 0xe1, 0x48, 0x58, 0xb0, 0xcb, 0x10, 0x3f, 0xe8, 0x28, 0xf5,
    0xc2, 0x8f, 0x5c, 0x29, 0x58, 0xb0, 0xca, 0xfe, 0x3f, 0xe3, 0xd2, 0x7d,
    0x27, 0xd2, 0x7d, 0x28, 0x00, 0x00, 0x00, 0x00, 0x00, 0x00, 0x00, 0x00,
    0x00, 0x00, 0x00, 0x00, 0x00, 0x00, 0x00, 0x00, 0x00, 0x00, 0x00, 0x00,
    0x00, 0x00, 0x00, 0x00, 0x00, 0x00, 0x00, 0x00, 0x00, 0x00, 0x00, 0x00,
    0x00, 0x00, 0x00, 0x00, 0x00, 0x00, 0x00, 0x00, 0x00, 0x00, 0x00, 0x00,
    0x00, 0x00, 0x00, 0x00, 0x00, 0x00, 0x00, 0x00, 0x00, 0x00, 0x00, 0x00,
    0x00, 0x00, 0x00, 0x00,
];

const SAMPLE_FILE_3: [u8; 208] = [
    0x00, 0x00, 0x00, 0x02, 0x00, 0x00, 0x01, 0x2c, 0x3e, 0x80, 0x00, 0x00,
    0x00, 0x00, 0x00, 0x03, 0x00, 0x00, 0x00, 0x34, 0x00, 0x00, 0x00, 0x04,
    0x00, 0x00, 0x00, 0x05, 0x00, 0x00, 0x00, 0x70, 0x00, 0x00, 0x00, 0x14,
    0x00, 0x00, 0x00, 0x03, 0x00, 0x00, 0x00, 0x94, 0x00, 0x00, 0x00, 0x3c,
    0x00, 0x00, 0x00, 0x05, 0x58, 0xb0, 0xdf, 0x08, 0xc0, 0x24, 0x66, 0x66,
    0x66, 0x66, 0x66, 0x66, 0x58, 0xb0, 0xde, 0xf8, 0x40, 0x8b, 0x3e, 0xf5,
    0xc2, 0x8f, 0x5c, 0x29, 0x58, 0xb0, 0xdf, 0x10, 0x40, 0x76, 0xe0, 0x28,
    0xf5, 0xc2, 0x8f, 0x5c, 0x58, 0xb0, 0xdf, 0x00, 0xc0, 0x8a, 0xf5, 0x0a,
    0x3d, 0x70, 0xa3, 0xd7, 0x58, 0xb0, 0xdf, 0x04, 0x40, 0x59, 0xde, 0x14,
    0x7a, 0xe1, 0x47, 0xae, 0x58, 0xb0, 0xde, 0xe0, 0x40, 0x88, 0x47, 0xae,
    0x14, 0x7a, 0xe1, 0x48, 0x58, 0xb0, 0xde, 0xf4, 0xc0, 0x69, 0x49, 0x47,
    0xae, 0x14, 0x7a, 0xe1, 0x58, 0xb0, 0xdf, 0x08, 0x40, 0x76, 0x3c, 0xf5,
    0xc2, 0x8f, 0x5c, 0x29, 0x58, 0xb0, 0xde, 0xcc, 0x40, 0x81, 0xf5, 0x5c,
    0x28, 0xf5, 0xc2, 0x90, 0x58, 0xb0, 0xdf, 0x08, 0x40, 0x76, 0x3c, 0xf5,
    0xc2, 0x8f, 0x5c, 0x29, 0x00, 0x00, 0x00, 0x00, 0x00, 0x00, 0x00, 0x00,
    0x00, 0x00, 0x00, 0x00, 0x00, 0x00, 0x00, 0x00, 0x00, 0x00, 0x00, 0x00,
    0x00, 0x00, 0x00, 0x00, 0x00, 0x00, 0x00, 0x00, 0x00, 0x00, 0x00, 0x00,
    0x00, 0x00, 0x00, 0x00,
];

fn aggregate(kind: AggregationType, values: &[u64]) -> f64 {
    let sum: f64 = values.iter().map(|b| f64::from_bits(*b)).sum();
    match kind {
        AggregationType::Average => {
            if values.is_empty() {
                0.0
            } else {
                sum / values.len() as f64
            }
        }
        AggregationType::Sum => sum,
    }
}

// Runs one write to the end of its cascade, doing the floating-point part
// of each step: the x-files-factor test and the aggregation.
fn write(file: &WhisperFile, data: &mut [u8], t: u32, v: f64, now: i64) {
    let agg = file.header.aggregation_type();
    let xff = f32::from_bits(file.header.x_files_factor());
    file.write_with(data, &Point(t, v.to_bits()), now, |c: &Candidates| {
        let ratio = c.values.len() as f32 / c.count as f32;
        if ratio >= xff {
            Some(aggregate(agg, &c.values).to_bits())
        } else {
            None
        }
    });
}

// The same write, one step at a time.
fn write_by_steps(file: &WhisperFile, data: &mut [u8], t: u32, v: f64, now: i64) {
    let point = Point(t, v.to_bits());
    let mut state = file.begin_write(data, &point, now);
    let xff = f32::from_bits(file.header.x_files_factor());
    while let Some(c) = file.cascade_candidates(data, &state, &point) {
        let ratio = c.values.len() as f32 / c.count as f32;
        let out = if ratio >= xff {
            Some(aggregate(file.header.aggregation_type(), &c.values).to_bits())
        } else {
            None
        };
        state = file.apply_aggregate(data, &c, out);
    }
}

fn new_file(specs: &[&str], agg: AggregationType, xff: f32) -> (WhisperFile, Vec<u8>) {
    let specs = specs.iter().map(|s| s.to_string()).collect();
    let schema = Schema::new_from_retention_specs(specs).unwrap();
    let data = WhisperFile::new_image(&schema, agg, xff.to_bits());
    let file = WhisperFile::open_mmap(&data).unwrap();
    (file, data)
}

#[test]
fn test_header() {
    let data = SAMPLE_EMPTY_FILE.to_vec();
    let hdr = Header::new_from_slice(&data);

    assert_eq!(hdr.aggregation_type(), AggregationType::Average);
    assert_eq!(hdr.max_retention(), 300);
    assert_eq!(f32::from_bits(hdr.x_files_factor()), 0.5);

    let archives = hdr.mmap_to_archives(&data).unwrap();
    assert_eq!(archives.len(), 1);
    assert_eq!(archives[0].seconds_per_point(), 60);
    assert_eq!(archives[0].points(), 5);
    assert_eq!(archives[0].size(), 60); // 5 points * (8 bytes float + 4 bytes ts) = 60 bytes
}

#[test]
fn test_aggregation_matches_py() {
    let sample: &[u8] = &SAMPLE_FILE_1;
    let (file, mut data) = new_file(&["1s:10s", "10s:1m", "1m:3m"], AggregationType::Average, 0.0);
    for &(t, v) in [
        (1487974954, 1.0),
        (1487974956, 3.0),
        (1487974959, 9.0),
        (1487974962, 15.0),
        (1487974965, 65.0),
        (1487974968, 122.0),
        (1487974970, 133.0),
    ]
    .iter()
    {
        write(&file, &mut data, t, v, t as i64);
    }
    assert_eq!(data, sample);
}

#[test]
fn test_aggregation_matches_py_with_xff() {
    let sample: &[u8] = &SAMPLE_FILE_2;
    let (file, mut data) = new_file(&["1s:6s", "6s:30s", "30s:3m"], AggregationType::Average, 0.33);
    for &(t, v) in [
        (1487981304, 0.35),
        (1487981307, 0.63),
        (1487981310, 0.71),
        (1487981312, 0.39),
        (1487981314, 0.59),
        (1487981319, 0.33),
        (1487981323, 0.17),
        (1487981327, 0.91),
        (1487981330, 0.79),
        (1487981332, 0.72),
    ]
    .iter()
    {
        write(&file, &mut data, t, v, t as i64);
    }
    assert_eq!(data, sample);
}

#[test]
fn test_aggregation_matches_py_with_sum() {
    let sample: &[u8] = &SAMPLE_FILE_3;
    let (file, mut data) = new_file(&["4s:20s", "20s:60s", "1m:5m"], AggregationType::Sum, 0.25);
    for &(t, v) in [
        (1487986400, -607.16),
        (1487986405, 833.57),
        (1487986411, 512.61),
        (1487986416, 37.94),
        (1487986420, -315.0),
        (1487986427, 871.87),
        (1487986433, -862.63),
        (1487986439, 103.47),
        (1487986443, -10.20),
        (1487986448, 366.01),
    ]
    .iter()
    {
        write(&file, &mut data, t, v, t as i64);
    }
    assert_eq!(data, sample);
}

#[test]
fn empty_file_image() {
    let (file, data) = new_file(&["1m:5m"], AggregationType::Average, 0.5);
    assert_eq!(data.len(), 88);
    assert_eq!(data, SAMPLE_EMPTY_FILE.to_vec());
    assert!(data[28..].iter().all(|b| *b == 0));
    assert_eq!(file.archives.len(), 1);
    assert_eq!(file.archives[0].offset(), 28);
}

#[test]
fn single_archive_write() {
    let (file, mut data) = new_file(&["1m:5m"], AggregationType::Average, 0.5);
    write(&file, &mut data, 1440297960, 5.0, 1440297960);
    assert_eq!(&data[28..40], &[0x55, 0xD9, 0x33, 0xE8, 0x40, 0x14, 0, 0, 0, 0, 0, 0]);
    assert!(data[40..].iter().all(|b| *b == 0));
    assert_eq!(&data[..28], &SAMPLE_EMPTY_FILE[..28]);
}

#[test]
fn xff_leaves_sparse_bucket_empty() {
    let (file, mut data) = new_file(&["1s:6s", "6s:30s", "30s:3m"], AggregationType::Average, 0.33);
    // Two samples fill two of the six 1s slots of their 6s bucket, enough
    // for it; the 30s bucket then sees one populated 6s slot of five.
    write(&file, &mut data, 1487981304, 0.35, 1487981305);
    write(&file, &mut data, 1487981305, 0.45, 1487981305);
    let coarse = &file.archives[2];
    let start = coarse.offset();
    assert!(data[start..].iter().all(|b| *b == 0));
    let middle = &file.archives[1];
    assert_eq!(&data[middle.offset()..middle.offset() + 4], &1487981304u32.to_be_bytes());
}

#[test]
fn out_of_retention_writes_change_nothing() {
    let (file, mut data) = new_file(&["1m:5m"], AggregationType::Average, 0.5);
    let n: i64 = 1440297960;
    write(&file, &mut data, 1440297900, 1.0, n);
    let before = data.clone();
    write(&file, &mut data, (n - 301) as u32, 2.0, n);
    assert_eq!(data, before);
    write(&file, &mut data, (n + 1) as u32, 3.0, n);
    assert_eq!(data, before);
    let point = Point((n - 301) as u32, 0);
    assert_eq!(file.begin_write(&mut data, &point, n), WriteState::Finished);
    assert_eq!(data, before);
}

#[test]
fn sample_older_than_finest_goes_to_coarser() {
    let (file, mut data) = new_file(&["1s:10s", "10s:1m"], AggregationType::Average, 0.0);
    let now: i64 = 1487974970;
    let point = Point(1487974945, 7.0f64.to_bits());
    let state = file.begin_write(&mut data, &point, now);
    assert_eq!(state, WriteState::Aggregate(1));
    let fine = &file.archives[0];
    assert!(data[fine.offset()..fine.offset() + 120].iter().all(|b| *b == 0));
    let coarse = &file.archives[1];
    assert_eq!(&data[coarse.offset()..coarse.offset() + 4], &1487974940u32.to_be_bytes());
    assert!(file.cascade_candidates(&data, &state, &point).is_none());
}

#[test]
fn candidates_keep_only_aligned_slots() {
    let (file, mut data) = new_file(&["1s:10s", "10s:1m"], AggregationType::Sum, 0.0);
    let now: i64 = 1487974958;
    for &(t, v) in [(1487974950u32, 1.0f64), (1487974952, 2.0), (1487974955, 4.0)].iter() {
        let point = Point(t, v.to_bits());
        let state = file.begin_write(&mut data, &point, now);
        assert_eq!(state, WriteState::Aggregate(0));
    }
    let point = Point(1487974958, 8.0f64.to_bits());
    let state = file.begin_write(&mut data, &point, now);
    let c = file.cascade_candidates(&data, &state, &point).unwrap();
    assert_eq!(c.archive, 1);
    assert_eq!(c.bucket, 1487974950);
    assert_eq!(c.count, 10);
    let got: Vec<f64> = c.values.iter().map(|b| f64::from_bits(*b)).collect();
    assert_eq!(got, vec![1.0, 2.0, 4.0, 8.0]);
    assert_eq!(file.apply_aggregate(&mut data, &c, None), WriteState::Finished);
    let coarse = &file.archives[1];
    assert!(data[coarse.offset()..].iter().all(|b| *b == 0));
    assert_eq!(file.apply_aggregate(&mut data, &c, Some(15.0f64.to_bits())), WriteState::Aggregate(1));
    assert_eq!(&data[coarse.offset()..coarse.offset() + 12], &[0x58, 0xb0, 0xb2, 0x26, 0x40, 0x2e, 0, 0, 0, 0, 0, 0]);
}

#[test]
fn truncated_image_is_refused() {
    let mut data = SAMPLE_EMPTY_FILE.to_vec();
    data.pop();
    assert!(WhisperFile::open_mmap(&data).is_none());
    assert!(WhisperFile::open_mmap(&data[..10]).is_none());
    let mut zero_points = SAMPLE_EMPTY_FILE.to_vec();
    zero_points[27] = 0;
    assert!(WhisperFile::open_mmap(&zero_points).is_none());
}

#[test]
fn aggregation_codes() {
    assert_eq!(AggregationType::from_u32(1), AggregationType::Average);
    assert_eq!(AggregationType::from_u32(2), AggregationType::Sum);
    assert_eq!(AggregationType::from_u32(7), AggregationType::Average);
    assert_eq!(AggregationType::Sum.to_u32(), 2);
    assert_eq!(AggregationType::Average.name(), "average");
}

#[test]
fn steps_and_whole_write_agree() {
    let (file, mut a) = new_file(&["4s:20s", "20s:60s", "1m:5m"], AggregationType::Sum, 0.25);
    let mut b = a.clone();
    for &(t, v) in [(1487986400u32, -607.16f64), (1487986405, 833.57), (1487986411, 512.61), (1487986448, 366.01)].iter() {
        write(&file, &mut a, t, v, t as i64);
        write_by_steps(&file, &mut b, t, v, t as i64);
    }
    assert_eq!(a, b);
}

#[test]
fn refusing_every_aggregate_touches_only_the_finest() {
    let (file, mut data) = new_file(&["1s:10s", "10s:1m", "1m:3m"], AggregationType::Average, 0.0);
    let counter = std::cell::Cell::new(0);
    file.write_with(&mut data, &Point(1487974954, 1.0f64.to_bits()), 1487974954, |c: &Candidates| {
        counter.set(counter.get() + 1);
        assert_eq!(c.archive, 1);
        None
    });
    assert_eq!(counter.get(), 1);
    let second = &file.archives[1];
    assert!(data[second.offset()..].iter().all(|b| *b == 0));
    let first = &file.archives[0];
    assert_eq!(&data[first.offset()..first.offset() + 4], &1487974954u32.to_be_bytes());
}
