use whisper::retention_policy::mult_str_to_num;
use whisper::{RetentionPolicy, Schema, ARCHIVE_INFO_SIZE, POINT_SIZE, STATIC_HEADER_SIZE};

#[test]
fn mod_test_size_on_disk() {
    let first_policy = RetentionPolicy { precision: 1, retention: 60 };
    let second_policy = RetentionPolicy { precision: 60, retention: 60 };
    let mut little_schema = Schema { retention_policies: vec![] };
    let expected = STATIC_HEADER_SIZE as u32 + ARCHIVE_INFO_SIZE as u32 * 2 + 60 * 12 + 1 * 12;
    little_schema.retention_policies.push(first_policy);
    little_schema.retention_policies.push(second_policy);
    assert_eq!(little_schema.size_on_disk(), expected);
}

#[test]
fn retention_policy_test_size_on_disk() {
    let five_minute_retention = RetentionPolicy { precision: 60, retention: 5 * 60 };
    let expected = five_minute_retention.size_on_disk();
    assert_eq!(expected, 5 * POINT_SIZE as u32);
}

#[test]
fn test_spec_without_multipliers() {
    let spec = "15:60";
    let expected = RetentionPolicy { precision: 15, retention: 15 * 60 };
    let retention_opt = RetentionPolicy::spec_to_retention_policy(spec);
    assert!(retention_opt.is_ok());
    let retention_policy = retention_opt.unwrap();
    assert_eq!(retention_policy.precision, expected.precision);
    assert_eq!(retention_policy.retention, expected.retention);
}

#[test]
fn test_spec_with_multipliers() {
    let spec = "1d:60y";
    let expected = RetentionPolicy { precision: 1 * 60 * 60 * 24, retention: 60 * 60 * 60 * 24 * 365 };
    let retention_opt = RetentionPolicy::spec_to_retention_policy(spec);
    assert!(retention_opt.is_ok());
    let retention_policy = retention_opt.unwrap();
    assert_eq!(retention_policy.precision, expected.precision);
    assert_eq!(retention_policy.retention, expected.retention);
}

#[test]
fn test_invalid_empty_spec() {
    let spec = "";
    let retention_opt = RetentionPolicy::spec_to_retention_policy(spec);
    let expected = format!("Error: Invalid schema: Policy '{}' is in an invalid format\n", spec);
    assert_eq!(retention_opt.unwrap_err().message(), expected)
}

#[test]
fn test_invalid_precision_spec() {
    let spec = "1x:60y";
    let retention_opt = RetentionPolicy::spec_to_retention_policy(spec);
    let expected = format!("Error: Invalid schema: Policy '{}' is in an invalid format\n", spec);
    assert_eq!(retention_opt.unwrap_err().message(), expected)
}

#[test]
fn test_invalid_retention_spec() {
    let spec = "15:60e";
    let retention_opt = RetentionPolicy::spec_to_retention_policy(spec);
    let expected = format!("Error: Invalid schema: Policy '{}' is in an invalid format\n", spec);
    assert_eq!(retention_opt.unwrap_err().message(), expected)
}

#[test]
fn test_overflow_precision_amount() {
    let precision = ::std::u32::MAX as u64 + 1;
    let spec = format!("{}s:60y", precision.to_string());
    let retention_opt = RetentionPolicy::spec_to_retention_policy(&spec);
    let expected = format!("Error: Invalid schema: Unable to parse precision '{}' in policy '{}' as u32\nCaused by: number too large to fit in target type\n", precision, spec);
    assert_eq!(retention_opt.unwrap_err().message(), expected)
}

#[test]
fn test_overflow_retention_amount() {
    let retention = ::std::u32::MAX as u64 + 7;
    let spec = format!("30s:{}y", retention.to_string());
    let retention_opt = RetentionPolicy::spec_to_retention_policy(&spec);
    let expected = format!("Error: Invalid schema: Unable to parse retention '{}' in policy '{}' as u32\nCaused by: number too large to fit in target type\n", retention, spec);
    assert_eq!(retention_opt.unwrap_err().message(), expected)
}

#[test]
fn test_missing_precision_amount() {
    let spec = "15s";
    let retention_opt = RetentionPolicy::spec_to_retention_policy(spec);
    let expected = format!("Error: Invalid schema: Policy '{}' is in an invalid format\n", spec);
    assert_eq!(retention_opt.unwrap_err().message(), expected)
}

#[test]
fn unit_free_retention_counts_points() {
    let p = RetentionPolicy::spec_to_retention_policy("7m:12").unwrap();
    assert_eq!(p.precision, 420);
    assert_eq!(p.retention, 420 * 12);
    assert_eq!(p.retention % p.precision, 0);
    assert_eq!(p.points(), 12);
}

#[test]
fn every_unit_letter() {
    let cases = [("1s:1s", 1u32), ("1m:1m", 60), ("1h:1h", 3600), ("1d:1d", 86400), ("1w:1w", 604800), ("1y:1y", 31536000)];
    for (spec, secs) in cases.iter() {
        let p = RetentionPolicy::spec_to_retention_policy(spec).unwrap();
        assert_eq!(p.precision, *secs);
        assert_eq!(p.retention, *secs);
    }
}

#[test]
fn precision_overflow_after_unit() {
    let spec = "100000y:1";
    let err = RetentionPolicy::spec_to_retention_policy(spec).unwrap_err();
    assert_eq!(err.0, "Unable to parse precision '100000' in policy '100000y:1' as u32\nCaused by: number too large to fit in target type");
}

#[test]
fn retention_overflow_in_points() {
    let spec = "1000s:5000000";
    let err = RetentionPolicy::spec_to_retention_policy(spec).unwrap_err();
    assert_eq!(err.0, "Unable to parse retention '5000000' in policy '1000s:5000000' as u32\nCaused by: number too large to fit in target type");
}

#[test]
fn two_colons_are_refused() {
    let err = RetentionPolicy::spec_to_retention_policy("1s:2s:3s").unwrap_err();
    assert_eq!(err.0, "Policy '1s:2s:3s' is in an invalid format");
    let err = RetentionPolicy::spec_to_retention_policy("s:60").unwrap_err();
    assert_eq!(err.0, "Policy 's:60' is in an invalid format");
}

#[test]
fn schema_from_specs() {
    let specs = vec!["1s:60s".to_string(), "1m:1y".to_string()];
    let schema = Schema::new_from_retention_specs(specs).unwrap();
    assert_eq!(schema.retention_policies.len(), 2);
    assert_eq!(schema.retention_policies[1], RetentionPolicy { precision: 60, retention: 31536000 });
    assert_eq!(schema.max_retention(), 31536000);
    assert_eq!(schema.header_size_on_disk(), 16 + 24);
    assert_eq!(schema.size_on_disk(), 16 + 24 + 60 * 12 + 525600 * 12);
}

#[test]
fn schema_reports_first_bad_spec() {
    let specs = vec!["1s:60s".to_string(), "1q:2".to_string(), "".to_string()];
    let err = Schema::new_from_retention_specs(specs).err().unwrap();
    assert_eq!(err.0, "Policy '1q:2' is in an invalid format");
    assert_eq!(err.description(), "Invalid schema");
}

#[test]
fn empty_schema() {
    let schema = Schema::new_from_retention_specs(vec![]).unwrap();
    assert_eq!(schema.max_retention(), 0);
    assert_eq!(schema.size_on_disk(), 16);
}

#[test]
fn multiplier_names() {
    assert_eq!(mult_str_to_num("h").unwrap(), 3600);
    assert_eq!(mult_str_to_num("w").unwrap(), 604800);
    assert_eq!(mult_str_to_num("x").unwrap_err().0, "Unrecognized time multiplier specified: 'x'");
    assert_eq!(mult_str_to_num("ms").unwrap_err().0, "Unrecognized time multiplier specified: 'ms'");
}

#[test]
fn descriptor_bytes() {
    let p = RetentionPolicy { precision: 10, retention: 60 };
    let mut buf = vec![];
    p.fill_buf(&mut buf, 0xac);
    assert_eq!(buf, vec![0, 0, 0, 0xac, 0, 0, 0, 10, 0, 0, 0, 6]);
}

#[test]
fn point_count_too_large_is_refused_even_at_zero_precision() {
    let err = RetentionPolicy::spec_to_retention_policy("0:4294967296").unwrap_err();
    assert_eq!(err.0, "Unable to parse retention '4294967296' in policy '0:4294967296' as u32\nCaused by: number too large to fit in target type");
    let ok = RetentionPolicy::spec_to_retention_policy("0:4294967295").unwrap();
    assert_eq!(ok, RetentionPolicy { precision: 0, retention: 0 });
}
