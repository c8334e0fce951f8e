use std::io::{Cursor, Write};
use std::time::{Duration, Instant};

use nexview::preload::cache::{CachedSite, SiteCache};
use nexview::preload::engine::{decompress_if_gzip, gzip_magic, keep_decoded, maybe_decompress_gz};
use nexview::render::map::{tile_grid, tiles_except, TileCache, TileData, TileKey, TileProvider};

fn site(id: &str, stale: bool) -> CachedSite<u32> {
    CachedSite {
        station_id: id.to_string(),
        file: 7,
        fetched_at: Instant::now(),
        thumbnail_pixels: None,
        stale,
    }
}

#[test]
fn site_cache_keys_are_case_insensitive() {
    let mut c: SiteCache<u32> = SiteCache::new();
    c.insert(site("ktlx", false));
    assert!(c.has("KTLX"));
    assert!(c.has("Ktlx"));
    assert_eq!(c.get("ktlx").unwrap().station_id, "ktlx");
    assert_eq!(c.stations_loaded(), vec!["KTLX".to_string()]);
    assert!(c.get("KFWS").is_none());
}

#[test]
fn site_cache_insert_replaces() {
    let mut c: SiteCache<u32> = SiteCache::new();
    c.insert(site("KTLX", false));
    let mut s = site("ktlx", true);
    s.file = 9;
    c.insert(s);
    assert_eq!(c.stations_loaded().len(), 1);
    assert_eq!(c.get("KTLX").unwrap().file, 9);
}

#[test]
fn site_cache_remove_stale_keeps_fresh() {
    let mut c: SiteCache<u32> = SiteCache::default();
    c.insert(site("KTLX", true));
    c.insert(site("KFWS", false));
    c.insert(site("KAMA", true));
    c.remove_stale();
    assert_eq!(c.stations_loaded(), vec!["KFWS".to_string()]);
}

#[test]
fn site_cache_mark_stale_by_age() {
    let mut c: SiteCache<u32> = SiteCache::new();
    let mut old = site("KTLX", false);
    old.fetched_at = Instant::now().checked_sub(Duration::from_secs(5)).unwrap();
    c.insert(old);
    c.insert(site("KFWS", false));
    c.mark_stale(Duration::from_secs(3600));
    assert!(!c.get("KTLX").unwrap().stale);
    c.mark_stale(Duration::from_secs(2));
    assert!(c.get("KTLX").unwrap().stale);
    assert!(!c.get("KFWS").unwrap().stale);
}

#[test]
fn site_cache_lookup_ignores_letter_case() {
    let mut c: SiteCache<u32> = SiteCache::new();
    c.insert(site("ktlx", false));
    assert_eq!(c.stations_loaded(), vec!["KTLX".to_string()]);
    for id in ["KTLX", "ktlx", "kTlX"] {
        assert!(c.has(id));
        assert_eq!(c.get(id).unwrap().station_id, "ktlx");
    }
    for k in c.stations_loaded() {
        assert!(c.has(&k));
    }
}

fn gzip(data: &[u8]) -> Vec<u8> {
    let mut e = flate2::write::GzEncoder::new(Vec::new(), flate2::Compression::default());
    e.write_all(data).unwrap();
    e.finish().unwrap()
}

#[test]
fn gzip_payloads_are_decompressed() {
    let raw = b"AR2V0006.radar volume".to_vec();
    let packed = gzip(&raw);
    assert!(gzip_magic(&packed));
    assert_eq!(maybe_decompress_gz(packed.clone()), raw);
    assert_eq!(decompress_if_gzip(packed), Some(raw.clone()));
}

#[test]
fn plain_payloads_pass_through() {
    let raw = b"AR2V0006.plain".to_vec();
    assert!(!gzip_magic(&raw));
    assert_eq!(maybe_decompress_gz(raw.clone()), raw);
    assert_eq!(decompress_if_gzip(raw.clone()), Some(raw));
}

#[test]
fn broken_gzip_is_kept_or_refused() {
    let bad = vec![0x1f, 0x8b, 0x08, 0x00, 0x01];
    assert_eq!(maybe_decompress_gz(bad.clone()), bad);
    assert_eq!(decompress_if_gzip(bad), None);
    assert_eq!(keep_decoded(vec![1], Some(vec![2, 3])), vec![2, 3]);
    assert_eq!(keep_decoded(vec![1], None), vec![1]);
}

fn png_bytes() -> Vec<u8> {
    let mut img = image::RgbaImage::new(2, 1);
    img.put_pixel(0, 0, image::Rgba([1, 2, 3, 4]));
    img.put_pixel(1, 0, image::Rgba([5, 6, 7, 8]));
    let mut out = Cursor::new(Vec::new());
    img.write_to(&mut out, image::ImageFormat::Png).unwrap();
    out.into_inner()
}

#[test]
fn tile_request_lifecycle() {
    let mut c = TileCache::new();
    let k = TileKey { x: 3, y: 5, z: 4 };
    assert_eq!(c.provider(), TileProvider::OpenStreetMap);
    assert_eq!(c.begin_request(k).as_deref(), Some("https://tile.openstreetmap.org/4/3/5.png"));
    // Already pending: no second fetch.
    assert_eq!(c.begin_request(k), None);
    c.finish_request(k, Some(&png_bytes()));
    let t = c.get_tile(k).unwrap();
    assert_eq!((t.width, t.height), (2, 1));
    assert_eq!(t.pixels, vec![1, 2, 3, 4, 5, 6, 7, 8]);
    assert_eq!(c.cache_size(), 1);
    // Cached: no fetch.
    assert_eq!(c.begin_request(k), None);
}

#[test]
fn tile_failed_fetch_allows_retry() {
    let mut c = TileCache::new();
    let k = TileKey { x: 0, y: 0, z: 1 };
    assert!(c.begin_request(k).is_some());
    c.finish_request(k, Some(b"not an image"));
    assert!(c.get_tile(k).is_none());
    assert!(c.begin_request(k).is_some());
    c.finish_request(k, None);
    assert_eq!(c.cache_size(), 0);
}

#[test]
fn tile_provider_switch_clears() {
    let mut c = TileCache::new();
    let k = TileKey { x: 1, y: 2, z: 3 };
    c.finish_with_tile(k, Some(TileData { pixels: vec![0; 4], width: 1, height: 1 }));
    assert_eq!(c.cache_size(), 1);
    c.set_provider(TileProvider::OpenStreetMap);
    assert_eq!(c.cache_size(), 1);
    c.set_provider(TileProvider::Satellite);
    assert_eq!(c.cache_size(), 0);
    assert_eq!(
        c.begin_request(k).as_deref(),
        Some("https://server.arcgisonline.com/ArcGIS/rest/services/World_Imagery/MapServer/tile/3/2/1")
    );
}

#[test]
fn provider_labels_and_urls() {
    let all = TileProvider::all();
    assert_eq!(all.len(), 4);
    let labels: Vec<&str> = all.iter().map(|p| p.label()).collect();
    assert_eq!(labels, vec!["Standard", "Dark", "Topographic", "Satellite"]);
    assert_eq!(TileProvider::Dark.url(2, 1, 0), "https://basemaps.cartocdn.com/dark_all/2/1/0.png");
    assert_eq!(TileProvider::Topographic.url(9, 10, 11), "https://tile.opentopomap.org/9/10/11.png");
}

#[test]
fn tile_grid_is_row_major_and_excludes() {
    let g = tile_grid(1, 3, 5, 7, 4);
    let xy: Vec<(u32, u32)> = g.iter().map(|k| (k.x, k.y)).collect();
    assert_eq!(xy, vec![(1, 5), (2, 5), (1, 6), (2, 6)]);
    assert!(g.iter().all(|k| k.z == 4));
    assert!(tile_grid(3, 1, 0, 2, 1).is_empty());
    assert!(tile_grid(0, 2, 2, 2, 1).is_empty());
    let rest = tiles_except(&g, &vec![TileKey { x: 2, y: 5, z: 4 }, TileKey { x: 1, y: 6, z: 3 }]);
    let xy: Vec<(u32, u32)> = rest.iter().map(|k| (k.x, k.y)).collect();
    assert_eq!(xy, vec![(1, 5), (1, 6), (2, 6)]);
}
