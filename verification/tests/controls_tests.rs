use nexview::controls::{key_step, KeyActions, KeyPresses, ViewState};
use nexview::timeline::{anim_window, frames_to_download, preload_position};
use nexview::viewer::{choose_sweep, may_add_secondary};

fn no_keys() -> KeyPresses {
    KeyPresses {
        up: false,
        down: false,
        right: false,
        left: false,
        q: false,
        w: false,
        m: false,
        space: false,
        period: false,
        comma: false,
        help: false,
        r: false,
        d: false,
        s: false,
        y: false,
        plus: false,
        minus: false,
        l: false,
        num: None,
    }
}

fn view() -> ViewState {
    ViewState {
        elevation: 0,
        product: 0,
        quad_view: false,
        dual_pane: true,
        wall_mode: false,
        mosaic_mode: false,
        anim_playing: false,
        anim_index: 0,
        needs_render: false,
        show_help: false,
        show_range_rings: false,
        show_detections: false,
        sounding_mode: false,
        model_mode: false,
        measure_mode: false,
    }
}

const PRODUCTS: usize = 7;
const SRV: usize = 6;

fn step(s: &ViewState, k: &KeyPresses, sweeps: Option<usize>, anim: usize) -> (ViewState, KeyActions) {
    key_step(s, k, sweeps, PRODUCTS, SRV, anim)
}

#[test]
fn arrow_up_tilts_up_until_the_top_sweep() {
    let k = KeyPresses { up: true, ..no_keys() };
    let (t, a) = step(&view(), &k, Some(3), 0);
    assert_eq!(t.elevation, 1);
    assert!(a.refresh_all && t.needs_render);
    let top = ViewState { elevation: 2, ..view() };
    let (t, a) = step(&top, &k, Some(3), 0);
    assert_eq!(t.elevation, 2);
    assert!(!a.refresh_all && !t.needs_render);
    let (t, _) = step(&view(), &k, None, 0);
    assert_eq!(t.elevation, 0);
}

#[test]
fn arrow_down_stops_at_the_lowest_sweep() {
    let k = KeyPresses { down: true, ..no_keys() };
    let (t, a) = step(&view(), &k, Some(3), 0);
    assert_eq!(t.elevation, 0);
    assert!(!a.refresh_all);
    let (t, _) = step(&ViewState { elevation: 2, ..view() }, &k, Some(3), 0);
    assert_eq!(t.elevation, 1);
}

#[test]
fn arrows_cycle_products_and_left_undoes_right() {
    let right = KeyPresses { right: true, ..no_keys() };
    let left = KeyPresses { left: true, ..no_keys() };
    let (t, a) = step(&view(), &left, None, 0);
    assert_eq!(t.product, 6);
    assert!(a.estimate_storm_motion);
    let (u, a) = step(&t, &right, None, 0);
    assert_eq!(u.product, 0);
    assert!(!a.estimate_storm_motion);
    let s = ViewState { product: 3, ..view() };
    let (t, _) = step(&s, &right, None, 0);
    let (u, _) = step(&t, &left, None, 0);
    assert_eq!((t.product, u.product), (4, 3));
}

#[test]
fn q_toggles_quad_view_and_leaves_dual_pane() {
    let k = KeyPresses { q: true, ..no_keys() };
    let (t, a) = step(&view(), &k, None, 0);
    assert!(t.quad_view && !t.dual_pane && t.needs_render);
    assert!(!a.refresh_all);
    let (u, _) = step(&t, &k, None, 0);
    assert!(!u.quad_view && !u.dual_pane);
}

#[test]
fn number_keys_select_existing_products() {
    let k = KeyPresses { num: Some(6), ..no_keys() };
    let (t, a) = step(&view(), &k, None, 0);
    assert_eq!(t.product, 6);
    assert!(a.estimate_storm_motion && a.refresh_all);
    let k = KeyPresses { num: Some(8), ..no_keys() };
    let (t, a) = step(&view(), &k, None, 0);
    assert_eq!(t.product, 0);
    assert!(!a.refresh_all);
}

#[test]
fn animation_keys_play_and_step_frames() {
    let space = KeyPresses { space: true, ..no_keys() };
    let (t, a) = step(&view(), &space, None, 4);
    assert!(t.anim_playing && a.restart_clock);
    let (t, a) = step(&view(), &space, None, 0);
    assert!(!t.anim_playing && !a.restart_clock);
    let comma = KeyPresses { comma: true, ..no_keys() };
    let playing = ViewState { anim_playing: true, ..view() };
    let (t, a) = step(&playing, &comma, None, 4);
    assert_eq!((t.anim_index, a.show_frame, t.anim_playing), (3, Some(3), false));
    let period = KeyPresses { period: true, ..no_keys() };
    let (t, a) = step(&ViewState { anim_index: 3, ..view() }, &period, None, 4);
    assert_eq!((t.anim_index, a.show_frame), (0, Some(0)));
}

#[test]
fn toggle_keys_and_modes() {
    let k = KeyPresses { m: true, w: true, y: true, s: true, help: true, plus: true, l: true, ..no_keys() };
    let (t, a) = step(&view(), &k, None, 0);
    assert!(a.activate_mosaic && !a.deactivate_mosaic && a.start_wall);
    assert!(t.measure_mode && a.clear_measure);
    assert!(t.model_mode && !t.sounding_mode && t.show_help);
    assert!(a.zoom_in && a.fetch_latest && t.needs_render);
    let walled = ViewState { wall_mode: true, mosaic_mode: true, measure_mode: true, ..view() };
    let (t, a) = step(&walled, &k, None, 0);
    assert!(!t.wall_mode && !a.start_wall && a.deactivate_mosaic && !t.measure_mode && !a.clear_measure);
}

#[test]
fn animation_takes_the_last_frames() {
    assert_eq!(anim_window(20, 6), (14, 6));
    assert_eq!(anim_window(4, 6), (0, 4));
    assert_eq!(anim_window(0, 6), (0, 0));
}

#[test]
fn preloaded_frames_are_not_downloaded() {
    let keys = vec!["a".to_string(), "b".to_string(), "b".to_string()];
    assert_eq!(preload_position(&keys, &"b".to_string()), Some(1));
    assert_eq!(preload_position(&keys, &"c".to_string()), None);
    let (download, hits) = frames_to_download(&vec![true, false, true, false, false]);
    assert_eq!(download, vec![1, 3, 4]);
    assert_eq!(hits, 2);
    let (download, hits) = frames_to_download(&vec![true, true]);
    assert!(download.is_empty());
    assert_eq!(hits, 2);
}

#[test]
fn sweep_choice_prefers_the_selected_tilt() {
    let has = vec![false, true, false, true];
    assert_eq!(choose_sweep(&has, 3), Some(3));
    assert_eq!(choose_sweep(&has, 2), Some(1));
    assert_eq!(choose_sweep(&has, 9), Some(1));
    assert_eq!(choose_sweep(&vec![false, false], 0), None);
}

#[test]
fn secondary_radars_are_not_duplicated() {
    let primary = "KTLX".to_string();
    let shown = vec!["KFWS".to_string()];
    assert!(!may_add_secondary(&primary, &shown, &"KTLX".to_string()));
    assert!(!may_add_secondary(&primary, &shown, &"KFWS".to_string()));
    assert!(may_add_secondary(&primary, &shown, &"KAMA".to_string()));
}
