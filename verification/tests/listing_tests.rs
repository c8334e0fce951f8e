use nexview::data::aws::{
    day_prefix, extract_key, key_display_name, listing_ordered_check, listing_url, object_url,
    parse_s3_list_xml, sort_by_key, station_day_prefix, NexradFileInfo,
};
use nexview::data::packs::{
    finished_status, list_error_status, listed_status, mkdir_error_status, pack_dir_name,
    pack_file_name, parse_pack_keys, PackStatus,
};
use nexview::predict::autoscan::{date_prefix, latest_scan_key, parse_scan_keys, scan_due, station_prefix};
use nexview::preload::engine::{extract_xml_tag, keys_ordered_check, latest_key};

const LISTING: &str = "<?xml version=\"1.0\"?><ListBucketResult>\
<Contents><Key>2024/05/06/KTLX/KTLX20240506_230512_V06</Key><LastModified>2024-05-06T23:06:00.000Z</LastModified><Size>12345</Size></Contents>\
<Contents><Key>2024/05/06/KTLX/KTLX20240506_000000_V06_MDM</Key><Size>99</Size></Contents>\
<Contents><Key>2024/05/06/KTLX/KTLX20240506_001012_V06</Key><LastModified>2024-05-06T00:11:00.000Z</LastModified><Size>abc</Size></Contents>\
<Contents><Key>2024/05/06/KTLX/notes.md</Key><Size>1</Size></Contents>\
<Contents><Key></Key><Size>7</Size></Contents>\
</ListBucketResult>";

#[test]
fn parses_listing_in_order_skipping_metadata() {
    assert!(listing_ordered_check(LISTING));
    let files = parse_s3_list_xml(LISTING);
    assert_eq!(files.len(), 2);
    assert_eq!(files[0].key, "2024/05/06/KTLX/KTLX20240506_230512_V06");
    assert_eq!(files[0].size, 12345);
    assert_eq!(files[0].last_modified, "2024-05-06T23:06:00.000Z");
    assert_eq!(files[0].display_name, "KTLX20240506_230512_V06");
    assert_eq!(files[1].key, "2024/05/06/KTLX/KTLX20240506_001012_V06");
    // A size that does not parse counts as 0.
    assert_eq!(files[1].size, 0);
}

#[test]
fn empty_listing_has_no_files() {
    assert!(parse_s3_list_xml("<ListBucketResult></ListBucketResult>").is_empty());
}

#[test]
fn listing_with_tags_out_of_order_is_detected() {
    assert!(!listing_ordered_check("<Contents></Key>x<Key></Contents>"));
}

#[test]
fn sort_by_key_is_stable() {
    let f = |k: &str, s: i64| NexradFileInfo {
        key: k.to_string(),
        size: s,
        last_modified: String::new(),
        display_name: k.to_string(),
    };
    let files = vec![f("b", 1), f("a", 2), f("b", 3), f("a", 4), f("c", 5)];
    let sorted = sort_by_key(files);
    let got: Vec<(String, i64)> = sorted.iter().map(|x| (x.key.clone(), x.size)).collect();
    assert_eq!(
        got,
        vec![
            ("a".to_string(), 2),
            ("a".to_string(), 4),
            ("b".to_string(), 1),
            ("b".to_string(), 3),
            ("c".to_string(), 5)
        ]
    );
}

#[test]
fn prefixes_and_urls() {
    assert_eq!(day_prefix("KTLX", 2024, 5, 6), "2024/05/06/KTLX/");
    assert_eq!(station_day_prefix("ktlx", 2024, 12, 31), "2024/12/31/KTLX/");
    assert_eq!(day_prefix("KABC", -5, 1, 2), "-005/01/02/KABC/");
    assert_eq!(day_prefix("KABC", 12345, 1, 2), "12345/01/02/KABC/");
    assert_eq!(
        listing_url("2024/05/06/KTLX/"),
        "https://unidata-nexrad-level2.s3.amazonaws.com?list-type=2&prefix=2024/05/06/KTLX/"
    );
    assert_eq!(
        object_url("2024/05/06/KTLX/X"),
        "https://unidata-nexrad-level2.s3.amazonaws.com/2024/05/06/KTLX/X"
    );
    assert_eq!(key_display_name("a/b/c"), "c");
    assert_eq!(key_display_name("plain"), "plain");
    assert_eq!(key_display_name("ends/"), "");
}

#[test]
fn first_key_of_listing() {
    assert_eq!(extract_key(LISTING).as_deref(), Some("2024/05/06/KTLX/KTLX20240506_230512_V06"));
    assert_eq!(extract_key("<Key>open only"), None);
    assert_eq!(extract_key("no keys"), None);
    // The closing tag is searched after the opening one.
    assert_eq!(extract_key("</Key><Key>k</Key>").as_deref(), Some("k"));
}

#[test]
fn engine_keys_are_sorted_and_latest_is_greatest() {
    assert!(keys_ordered_check(LISTING));
    let keys = nexview::preload::engine::parse_s3_list_xml(LISTING);
    assert_eq!(
        keys,
        vec![
            "2024/05/06/KTLX/KTLX20240506_001012_V06".to_string(),
            "2024/05/06/KTLX/KTLX20240506_230512_V06".to_string()
        ]
    );
    assert_eq!(latest_key(LISTING).as_deref(), Some("2024/05/06/KTLX/KTLX20240506_230512_V06"));
    assert_eq!(latest_key("<ListBucketResult/>"), None);
}

#[test]
fn extract_xml_tag_cases() {
    assert_eq!(extract_xml_tag("<a><Size>12</Size></a>", "Size").as_deref(), Some("12"));
    assert_eq!(extract_xml_tag("<Size></Size>", "Size").as_deref(), Some(""));
    assert_eq!(extract_xml_tag("<Size>12", "Size"), None);
    assert_eq!(extract_xml_tag("12</Size>", "Size"), None);
}

#[test]
fn pack_names() {
    assert_eq!(pack_dir_name("KTLX", 2024, 4, 26), "KTLX_20240426");
    assert_eq!(pack_file_name("2024/04/26/KTLX/KTLX20240426_010203_V06"), "KTLX20240426_010203_V06.nexrad");
}

#[test]
fn pack_keys_sorted_and_filtered() {
    let resp = "<Key>b/KTLX2</Key><Key>a/x_MDM</Key><Key>a/KTLX1</Key><Key></Key><Key>c/n.md</Key><Key>unterminated";
    assert_eq!(parse_pack_keys(resp), vec!["a/KTLX1".to_string(), "b/KTLX2".to_string()]);
}

#[test]
fn pack_statuses() {
    match listed_status(0) {
        PackStatus::Error(m) => assert_eq!(m, "No files found for this date"),
        _ => panic!("expected an error"),
    }
    match listed_status(3) {
        PackStatus::Downloading { done, total } => assert_eq!((done, total), (0, 3)),
        _ => panic!("expected downloading"),
    }
    match finished_status(10, 3) {
        PackStatus::Ready(n) => assert_eq!(n, 7),
        _ => panic!("expected ready"),
    }
    match list_error_status("timeout") {
        PackStatus::Error(m) => assert_eq!(m, "List error: timeout"),
        _ => panic!("expected an error"),
    }
    match mkdir_error_status("denied") {
        PackStatus::Error(m) => assert_eq!(m, "mkdir error: denied"),
        _ => panic!("expected an error"),
    }
}

#[test]
fn scan_keys_keep_listing_order_and_filter() {
    let resp = "<Key>x/K2</Key><Key>x/K1_MDM</Key><Key>x/KNXL2A</Key><Key>x/K1</Key><Key>x/y.md</Key>";
    assert_eq!(
        parse_scan_keys(resp),
        vec!["x/K2".to_string(), "x/K1".to_string(), "x/y.md".to_string()]
    );
    assert_eq!(latest_scan_key(resp).as_deref(), Some("x/y.md"));
    assert_eq!(latest_scan_key("nothing"), None);
}

#[test]
fn scan_prefixes_and_schedule() {
    let d = date_prefix(2025, 3, 9);
    assert_eq!(d, "2025/03/09");
    assert_eq!(station_prefix(&d, "KTLX"), "2025/03/09/KTLX/");
    assert!(scan_due(true, false, None));
    assert!(scan_due(true, false, Some(true)));
    assert!(!scan_due(true, false, Some(false)));
    assert!(!scan_due(true, true, None));
    assert!(!scan_due(false, false, None));
}
