use tea_house_election::backup::{backup_name, data_file, prune, Generation};
use tea_house_election::text::{chars_of, digit_value, push_decimal, read_digits, sort_texts, stands_at, str_lt};

fn strings(list: &[&str]) -> Vec<String> {
    list.iter().map(|s| s.to_string()).collect()
}

#[test]
fn file_names_carry_the_bucket() {
    assert_eq!(data_file("elections"), "elections.json");
    assert_eq!(backup_name("elections", 0), "elections-0.json");
    assert_eq!(backup_name("elections", 1730073600), "elections-1730073600.json");
    assert_eq!(backup_name("elections", -1), "elections--1.json");
    assert_eq!(backup_name("e", i64::MAX), format!("e-{}.json", i64::MAX));
    assert_eq!(backup_name("e", i64::MIN), format!("e-{}.json", i64::MIN));
}

#[test]
fn buckets_round_down() {
    let t = 1_730_073_600i64 + 3599;
    assert_eq!(Generation::History.key(t), t);
    assert_eq!(Generation::Hourly.key(t), 480_576);
    assert_eq!(Generation::Daily.key(t), 20_024);
    assert_eq!(Generation::Monthly.key(t), 715);
    assert_eq!(Generation::Hourly.key(t + 1), 480_577);
    assert_eq!(Generation::Hourly.key(0), 0);
    assert_eq!(Generation::Hourly.key(-1), -1);
    assert_eq!(Generation::Hourly.key(-3600), -1);
    assert_eq!(Generation::Hourly.key(-3601), -2);
    assert_eq!(Generation::Daily.key(i64::MIN), i64::MIN.div_euclid(86400));
    assert_eq!(Generation::Monthly.key(i64::MAX), i64::MAX / 2_419_200);
}

#[test]
fn writes_in_one_bucket_share_a_file() {
    let start = 480_576 * 3600;
    assert_eq!(Generation::Hourly.file("elections", start), "elections-480576.json");
    assert_eq!(Generation::Hourly.file("elections", start + 3599), "elections-480576.json");
    assert_eq!(Generation::Hourly.file("elections", start + 3600), "elections-480577.json");
    assert_eq!(Generation::History.file("elections", start + 1), format!("elections-{}.json", start + 1));
    assert_eq!(Generation::Daily.file("elections", start), "elections-20024.json");
    assert_eq!(Generation::Monthly.file("elections", start), "elections-715.json");
}

#[test]
fn generations_have_their_folders_and_limits() {
    assert_eq!(Generation::History.folder(), "bku/history");
    assert_eq!(Generation::Hourly.folder(), "bku/hourly");
    assert_eq!(Generation::Daily.folder(), "bku/daily");
    assert_eq!(Generation::Monthly.folder(), "bku/monthly");
    assert_eq!(Generation::History.keep(), 20);
    assert_eq!(Generation::Hourly.keep(), 24);
    assert_eq!(Generation::Daily.keep(), 30);
    assert_eq!(Generation::Monthly.keep(), usize::MAX);
}

#[test]
fn the_oldest_files_go() {
    let r = prune(strings(&["e-5.json", "e-3.json", "e-4.json", "e-1.json", "e-2.json"]), 3);
    assert_eq!(r.doomed, strings(&["e-1.json", "e-2.json"]));
    assert_eq!(r.kept, strings(&["e-3.json", "e-4.json", "e-5.json"]));
    let r = prune(strings(&["b", "a"]), 2);
    assert!(r.doomed.is_empty());
    assert_eq!(r.kept, strings(&["a", "b"]));
    let r = prune(strings(&["b", "a"]), usize::MAX);
    assert!(r.doomed.is_empty());
    let r = prune(strings(&["b", "a"]), 0);
    assert_eq!(r.doomed, strings(&["a", "b"]));
    assert!(r.kept.is_empty());
    let r = prune(Vec::new(), 5);
    assert!(r.doomed.is_empty() && r.kept.is_empty());
}

#[test]
fn twenty_four_hourly_backups_stay() {
    let mut folder: Vec<String> = Vec::new();
    let first = 480_576i64;
    for hour in 0..40 {
        let name = Generation::Hourly.file("elections", (first + hour) * 3600 + 17);
        if !folder.contains(&name) {
            folder.push(name);
        }
        folder = prune(folder, Generation::Hourly.keep()).kept;
    }
    let expected: Vec<String> =
        (16..40).map(|hour| format!("elections-{}.json", first + hour)).collect();
    assert_eq!(folder, expected);
}

#[test]
fn the_canonical_order_is_the_order_of_str() {
    let samples = ["", "a", "A", "ab", "b", "é", "e", "z", "~", "日本", "a\u{10000}", "a\u{ffff}", "10", "9"];
    for a in samples {
        for b in samples {
            assert_eq!(str_lt(a, b), a < b, "{a:?} {b:?}");
        }
    }
    let mut expected = strings(&samples);
    expected.sort();
    assert_eq!(sort_texts(strings(&samples)), expected);
}

#[test]
fn numbers_are_written_and_read_in_base_ten() {
    for n in [0u64, 7, 10, 99, 100, 12345, u64::MAX] {
        let mut out = String::from("n=");
        push_decimal(&mut out, n);
        assert_eq!(out, format!("n={n}"));
    }
    let chars = chars_of("x0042y");
    assert_eq!(chars, vec!['x', '0', '0', '4', '2', 'y']);
    assert_eq!(read_digits(&chars, 1, 5), Some(42));
    assert_eq!(read_digits(&chars, 2, 2), Some(0));
    let big = chars_of(&format!("{}", usize::MAX));
    assert_eq!(read_digits(&big, 0, big.len()), Some(usize::MAX));
    let too_big = chars_of(&format!("{}0", usize::MAX));
    assert_eq!(read_digits(&too_big, 0, too_big.len()), None);
    let too_big = chars_of("18446744073709551616");
    assert_eq!(read_digits(&too_big, 0, too_big.len()), None);
    assert_eq!(digit_value('7'), Some(7));
    assert_eq!(digit_value('x'), None);
    assert_eq!(digit_value('٣'), None);
    assert!(stands_at(&chars, 1, "004"));
    assert!(!stands_at(&chars, 4, "2yz"));
    assert!(stands_at(&chars, 6, ""));
}

#[test]
fn files_are_ordered_by_name_not_by_number() {
    let r = prune(strings(&["e-99999.json", "e-100000.json"]), 1);
    assert_eq!(r.doomed, strings(&["e-100000.json"]));
    assert_eq!(r.kept, strings(&["e-99999.json"]));
}
