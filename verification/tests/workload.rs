use pocket_lsm::workload::{
    expected_entry, flag, lines, make_crash_value, make_key, make_value, pseudo_random_index, Flag, Options,
    OptionsError, Workload, WorkloadAction,
};

fn args(list: &[&str]) -> Vec<Vec<u8>> {
    list.iter().map(|a| a.as_bytes().to_vec()).collect()
}

#[test]
fn keys_and_values_have_fixed_width_indexes() {
    assert_eq!(make_key(7), b"key-00000000000000000007".to_vec());
    assert_eq!(make_key(u64::MAX), b"key-18446744073709551615".to_vec());
    assert_eq!(make_crash_value(12), b"value-00000000000000000012".to_vec());
    assert_eq!(make_value(1, 5), b"value".to_vec());
    let v = make_value(3, 30);
    assert_eq!(&v[..27], b"value-00000000000000000003:");
    assert_eq!(&v[27..], &[30u8, 31, 32]);
    assert!(make_value(9, 0).is_empty());
    let long = make_value(250, 300);
    assert_eq!(long[27], ((250 + 27) % 251) as u8);
    assert_eq!(long[299], ((250 + 299) % 251) as u8);
}

#[test]
fn pseudo_random_index_is_a_wrapping_linear_step() {
    assert_eq!(pseudo_random_index(0, 10), 1442695040888963407 % 10);
    assert_eq!(pseudo_random_index(1, 1000), 412);
    assert_eq!(pseudo_random_index(5, 0), 0);
    let expected = 3u64.wrapping_mul(6364136223846793005).wrapping_add(1442695040888963407) % 97;
    assert_eq!(pseudo_random_index(3, 97), expected);
    assert!(pseudo_random_index(u64::MAX, 13) < 13);
}

#[test]
fn workloads_parse_by_name() {
    assert_eq!(Workload::parse(b"write"), Some(Workload::Write));
    assert_eq!(Workload::parse(b"populate"), Some(Workload::Populate));
    assert_eq!(Workload::parse(b"read"), Some(Workload::Read));
    assert_eq!(Workload::parse(b"mixed"), Some(Workload::Mixed));
    assert_eq!(Workload::parse(b"Mixed"), None);
    assert_eq!(Workload::Populate.as_str(), "populate");
    assert_eq!(flag(b"-h"), Flag::Help);
    assert_eq!(flag(b"--keys"), Flag::Keys);
    assert_eq!(flag(b"--key"), Flag::Unknown);
}

#[test]
fn options_start_from_defaults() {
    let o = Options::parse(&[], b"/tmp/pocket-lsm-perf").unwrap();
    assert_eq!(o.workload, Workload::Write);
    assert_eq!(o.data_dir, b"/tmp/pocket-lsm-perf".to_vec());
    assert_eq!(o.keys, 200_000);
    assert_eq!(o.ops, 200_000);
    assert_eq!(o.value_bytes, 256);
    assert_eq!(o.memtable_threshold, 1024 * 1024);
    assert_eq!(o.maximum_memtables, 4);
    assert_eq!(o.read_percent, 50);
}

#[test]
fn options_read_every_flag() {
    let o = Options::parse(
        &args(&[
            "--workload",
            "mixed",
            "--data-dir",
            "/data",
            "--keys",
            "10",
            "--ops",
            "+20",
            "--value-bytes",
            "8",
            "--memtable-threshold",
            "64",
            "--maximum-memtables",
            "2",
            "--read-percent",
            "100",
        ]),
        b"/tmp/x",
    )
    .unwrap();
    assert_eq!(o.workload, Workload::Mixed);
    assert_eq!(o.data_dir, b"/data".to_vec());
    assert_eq!((o.keys, o.ops, o.value_bytes), (10, 20, 8));
    assert_eq!((o.memtable_threshold, o.maximum_memtables, o.read_percent), (64, 2, 100));
}

#[test]
fn options_report_each_refusal() {
    assert_eq!(Options::parse(&args(&["--help", "--bogus"]), b"d"), Err(OptionsError::Help));
    assert_eq!(Options::parse(&args(&["--keys", "1", "-h"]), b"d"), Err(OptionsError::Help));
    assert_eq!(
        Options::parse(&args(&["--bogus"]), b"d"),
        Err(OptionsError::UnknownArgument(b"--bogus".to_vec()))
    );
    assert_eq!(Options::parse(&args(&["--keys"]), b"d"), Err(OptionsError::MissingValue(b"--keys".to_vec())));
    assert_eq!(
        Options::parse(&args(&["--workload", "scan"]), b"d"),
        Err(OptionsError::UnknownWorkload(b"scan".to_vec()))
    );
    assert_eq!(
        Options::parse(&args(&["--ops", "-1"]), b"d"),
        Err(OptionsError::InvalidValue(b"--ops".to_vec(), b"-1".to_vec()))
    );
    assert_eq!(
        Options::parse(&args(&["--read-percent", "256"]), b"d"),
        Err(OptionsError::InvalidValue(b"--read-percent".to_vec(), b"256".to_vec()))
    );
    assert_eq!(Options::parse(&args(&["--read-percent", "101"]), b"d"), Err(OptionsError::ReadPercentTooLarge));
}

#[test]
fn workload_steps_follow_the_workload() {
    let mut o = Options::parse(&args(&["--keys", "3", "--ops", "5", "--value-bytes", "4"]), b"d").unwrap();
    assert_eq!(o.step_count(), 3);
    assert_eq!(o.step(2), WorkloadAction::Put { key: make_key(2), value: b"valu".to_vec() });

    o.workload = Workload::Read;
    assert_eq!(o.step_count(), 5);
    assert_eq!(o.step(1), WorkloadAction::Get { key: make_key(pseudo_random_index(1, 3)), required: true });

    o.workload = Workload::Mixed;
    o.read_percent = 50;
    assert_eq!(o.step_count(), 5);
    assert_eq!(o.step(149), WorkloadAction::Get { key: make_key(pseudo_random_index(149, 3)), required: false });
    assert_eq!(o.step(60), WorkloadAction::Put { key: make_key(63), value: make_value(63, 4) });
    o.keys = 0;
    assert_eq!(o.step(1), WorkloadAction::Put { key: make_key(1), value: make_value(1, 4) });
    assert!(o.step_fits(1));
    o.keys = u64::MAX;
    o.read_percent = 0;
    assert!(!o.step_fits(1));
}

#[test]
fn expected_file_lines_split_into_key_and_value() {
    let text = b"k1\tv1\r\nk2\tv2\textra\nnovalue\n";
    let ls = lines(text);
    assert_eq!(ls, vec![b"k1\tv1".to_vec(), b"k2\tv2\textra".to_vec(), b"novalue".to_vec()]);
    assert_eq!(expected_entry(&ls[0]), Some((b"k1".to_vec(), b"v1".to_vec())));
    assert_eq!(expected_entry(&ls[1]), Some((b"k2".to_vec(), b"v2".to_vec())));
    assert_eq!(expected_entry(&ls[2]), None);
    assert_eq!(expected_entry(b"k\t"), Some((b"k".to_vec(), Vec::new())));
    assert!(lines(b"").is_empty());
    assert_eq!(lines(b"\n\nx"), vec![Vec::new(), Vec::new(), b"x".to_vec()]);
}
