use nexview::data::alerts::AlertSeverity;
use nexview::data::sounding::raob_candidate_times;
use nexview::export::{encode_animation_gif, find_nearest_color, index_frame, RgbaFrame};
use nexview::predict::convert::npy_header;
use nexview::render::warnings::{WarningKind, WarningRenderer};
use nexview::text::{sort_strings, str_lt};
use nexview::timeline::{closest_frame, sync_frame_map};
use nexview::viewer::{next_frame, HrrrFrame, WallLoader, WallPanelStatus};

#[test]
fn strings_sort_by_code_point() {
    let v: Vec<String> = ["b", "a", "ab", "B", "", "a"].iter().map(|s| s.to_string()).collect();
    let mut expected = v.clone();
    expected.sort();
    assert_eq!(sort_strings(v), expected);
    assert!(str_lt("a", "ab"));
    assert!(str_lt("B", "a"));
    assert!(!str_lt("a", "a"));
    assert!(str_lt("", "a"));
}

#[test]
fn closest_frame_prefers_first_on_ties() {
    let ts = vec![1000, 3000, 5000];
    assert_eq!(closest_frame(&ts, 2000), Some(0));
    assert_eq!(closest_frame(&ts, 2001), Some(1));
    assert_eq!(closest_frame(&ts, 5000 + 300_000), Some(2));
    assert_eq!(closest_frame(&ts, 5000 + 300_001), None);
    assert_eq!(closest_frame(&Vec::new(), 0), None);
}

#[test]
fn sync_map_rows() {
    let primary = vec![0, 600_000, 1_200_000];
    let secondaries = vec![vec![10_000, 650_000], vec![]];
    let m = sync_frame_map(&primary, &secondaries);
    assert_eq!(m.len(), 3);
    assert_eq!(m[0], vec![Some(0), Some(1), Some(2)]);
    assert_eq!(m[1], vec![Some(0), Some(1), None]);
    assert_eq!(m[2], vec![None, None, None]);
}

#[test]
fn wall_loads_panels_in_order() {
    let (mut w, first) = WallLoader::start(3);
    assert_eq!(first, Some(0));
    assert_eq!(
        w.statuses,
        vec![WallPanelStatus::Downloading, WallPanelStatus::Pending, WallPanelStatus::Pending]
    );
    assert_eq!(w.finish_current(true), Some(1));
    assert_eq!(w.finish_current(false), Some(2));
    assert!(!w.done());
    assert_eq!(w.finish_current(true), None);
    assert!(w.done());
    assert_eq!(
        w.statuses,
        vec![WallPanelStatus::Loaded, WallPanelStatus::Error, WallPanelStatus::Loaded]
    );
    let (empty, none) = WallLoader::start(0);
    assert_eq!(none, None);
    assert!(empty.done());
}

#[test]
fn hrrr_frame_flattens_pixels() {
    let f = HrrrFrame::from_pixels(&vec![[1, 2, 3, 4], [5, 6, 7, 8]], 2, 1);
    assert_eq!(f.pixels, vec![1, 2, 3, 4, 5, 6, 7, 8]);
    assert_eq!((f.width, f.height), (2, 1));
}

#[test]
fn animation_wraps() {
    assert_eq!(next_frame(0, 3), 1);
    assert_eq!(next_frame(2, 3), 0);
}

#[test]
fn warning_styles() {
    assert_eq!(WarningRenderer::kind_for_event("Tornado Warning"), WarningKind::TornadoWarning);
    assert_eq!(
        WarningRenderer::kind_for_event("SEVERE THUNDERSTORM WARNING"),
        WarningKind::SevereThunderstormWarning
    );
    assert_eq!(WarningRenderer::kind_for_event("Tornado Watch"), WarningKind::TornadoWatch);
    assert_eq!(
        WarningRenderer::kind_for_event("Severe Thunderstorm Watch"),
        WarningKind::SevereThunderstormWatch
    );
    assert_eq!(WarningRenderer::kind_for_event("Flash Flood Warning"), WarningKind::FlashFloodWarning);
    assert_eq!(WarningRenderer::kind_for_event("Flood Advisory"), WarningKind::Other);
    let s = WarningRenderer::style_for_event("tornado warning");
    assert_eq!((s.stroke_rgb, s.stroke_width, s.fill_alpha), ((0xFF, 0, 0), 3, 40));
    let o = WarningRenderer::style_for_event("Special Weather Statement");
    assert_eq!((o.stroke_rgb, o.stroke_width, o.fill_alpha), ((0xFF, 0xFF, 0xFF), 1, 0));
}

#[test]
fn alert_severity_names() {
    assert_eq!(AlertSeverity::from_nws("Extreme"), AlertSeverity::Extreme);
    assert_eq!(AlertSeverity::from_nws("Severe"), AlertSeverity::Severe);
    assert_eq!(AlertSeverity::from_nws("Moderate"), AlertSeverity::Moderate);
    assert_eq!(AlertSeverity::from_nws("Minor"), AlertSeverity::Minor);
    assert_eq!(AlertSeverity::from_nws("minor"), AlertSeverity::Unknown);
    assert_eq!(AlertSeverity::from_nws(""), AlertSeverity::Unknown);
}

#[test]
fn npy_header_is_aligned() {
    let h = npy_header(&vec![2, 24, 64, 64]);
    assert_eq!(&h[..8], b"\x93NUMPY\x01\x00");
    assert_eq!(h.len() % 64, 0);
    let len = u16::from_le_bytes([h[8], h[9]]) as usize;
    assert_eq!(len, h.len() - 10);
    let text = String::from_utf8(h[10..].to_vec()).unwrap();
    assert!(text.starts_with("{'descr': '<f4', 'fortran_order': False, 'shape': (2, 24, 64, 64,), }"));
    assert!(text.ends_with(" \n"));
}

#[test]
fn nearest_colour() {
    let pal = vec![[0, 0, 0], [255, 255, 255], [250, 250, 250]];
    assert_eq!(find_nearest_color(&pal, [240, 240, 240]), 2);
    assert_eq!(find_nearest_color(&pal, [10, 0, 0]), 0);
    assert_eq!(find_nearest_color(&Vec::new(), [1, 2, 3]), 0);
}

#[test]
fn indexed_frame_round_trips_colours() {
    // Two opaque colours and one transparent pixel.
    let rgba = vec![10, 20, 30, 255, 40, 50, 60, 255, 0, 0, 0, 0, 10, 20, 30, 255];
    let f = index_frame(&rgba);
    assert_eq!(f.indices.len(), 4);
    assert_eq!(f.indices[0], f.indices[3]);
    let p = &f.palette;
    let col = |i: u8| [p[i as usize * 3], p[i as usize * 3 + 1], p[i as usize * 3 + 2]];
    assert_eq!(col(f.indices[0]), [10, 20, 30]);
    assert_eq!(col(f.indices[1]), [40, 50, 60]);
    assert_eq!(f.transparent, Some(f.indices[2]));
    assert!((p.len() / 3).is_power_of_two());
}

#[test]
fn gif_export() {
    assert_eq!(encode_animation_gif(&Vec::new(), 100), Err("No frames to export".to_string()));
    let frame = |w: usize, h: usize| RgbaFrame { width: w, height: h, pixels: vec![200; w * h * 4] };
    let bytes = encode_animation_gif(&vec![frame(2, 2), frame(2, 2)], 100).unwrap();
    assert_eq!(&bytes[..6], b"GIF89a");
    let mut opts = gif::DecodeOptions::new();
    opts.set_color_output(gif::ColorOutput::RGBA);
    let mut dec = opts.read_info(&bytes[..]).unwrap();
    let mut n = 0;
    while let Some(f) = dec.read_next_frame().unwrap() {
        assert_eq!((f.width, f.height), (2, 2));
        assert_eq!(f.delay, 10);
        n += 1;
    }
    assert_eq!(n, 2);
    let err = encode_animation_gif(&vec![frame(2, 2), frame(3, 2)], 100).unwrap_err();
    assert_eq!(err, "Frame 1 has different dimensions (3x2) than first frame (2x2)");
}

#[test]
fn gif_export_header_and_frame_bytes() {
    let frame = RgbaFrame { width: 2, height: 2, pixels: vec![200; 16] };
    let bytes = encode_animation_gif(&vec![frame], 100).unwrap();
    let mut head: Vec<u8> = b"GIF89a".to_vec();
    head.extend_from_slice(&[2, 0, 2, 0, 0x80, 0, 0, 0, 0, 0, 0, 0, 0]);
    head.extend_from_slice(&[0x21, 0xFF, 11]);
    head.extend_from_slice(b"NETSCAPE2.0");
    head.extend_from_slice(&[3, 1, 0, 0, 0]);
    head.extend_from_slice(&[0x21, 0xF9, 4, 8, 10, 0, 0, 0]);
    head.extend_from_slice(&[0x2C, 0, 0, 0, 0, 2, 0, 2, 0, 0x80]);
    head.extend_from_slice(&[200, 200, 200, 0, 0, 0]);
    assert_eq!(&bytes[..head.len()], &head[..]);
    assert_eq!(*bytes.last().unwrap(), 0x3B);
}

#[test]
fn gif_export_short_frame_fails_to_write() {
    let frame = RgbaFrame { width: 2, height: 2, pixels: vec![200; 8] };
    let err = encode_animation_gif(&vec![frame], 100).unwrap_err();
    assert!(err.starts_with("Failed to write frame 0: "), "{}", err);
}

#[test]
fn raob_launch_times_after_and_before_noon() {
    assert_eq!(
        raob_candidate_times("20250310", "20250309", 15),
        vec!["202503101200".to_string(), "202503100000".to_string(), "202503090000".to_string()]
    );
    assert_eq!(
        raob_candidate_times("20250310", "20250309", 3),
        vec!["202503100000".to_string(), "202503091200".to_string(), "202503090000".to_string()]
    );
    assert_eq!(raob_candidate_times("20250310", "20250309", 12)[0], "202503101200");
}
