//! Keyboard shortcuts of the radar view: what one frame's key presses do to the
//! view state, and which effects the application has to carry out.

use vstd::prelude::*;

verus! {

/// The keys pressed during one frame.
#[derive(Debug, Clone, Copy, PartialEq, Eq, Structural)]
pub struct KeyPresses {
    /// ArrowUp: tilt up.
    pub up: bool,
    /// ArrowDown: tilt down.
    pub down: bool,
    /// ArrowRight: next product.
    pub right: bool,
    /// ArrowLeft: previous product.
    pub left: bool,
    /// Q: quad view.
    pub q: bool,
    /// W: wall mode.
    pub w: bool,
    /// M: mosaic mode and measure mode.
    pub m: bool,
    /// Space: play or pause the animation.
    pub space: bool,
    /// Period: next animation frame.
    pub period: bool,
    /// Comma: previous animation frame.
    pub comma: bool,
    /// H or F1: help overlay.
    pub help: bool,
    /// R: range rings.
    pub r: bool,
    /// D: rotation detections.
    pub d: bool,
    /// S: sounding mode.
    pub s: bool,
    /// Y: model overlay.
    pub y: bool,
    /// Plus: zoom in.
    pub plus: bool,
    /// Minus: zoom out.
    pub minus: bool,
    /// L: load the latest volume.
    pub l: bool,
    /// The last number key pressed, as 0 for `1` up to 8 for `9`.
    pub num: Option<usize>,
}

/// The part of the view state that the keyboard changes.
#[derive(Debug, Clone, Copy, PartialEq, Eq, Structural)]
pub struct ViewState {
    /// Index of the selected sweep (tilt).
    pub elevation: usize,
    /// Index of the selected product in the product list.
    pub product: usize,
    pub quad_view: bool,
    pub dual_pane: bool,
    pub wall_mode: bool,
    pub mosaic_mode: bool,
    pub anim_playing: bool,
    pub anim_index: usize,
    pub needs_render: bool,
    pub show_help: bool,
    pub show_range_rings: bool,
    pub show_detections: bool,
    pub sounding_mode: bool,
    pub model_mode: bool,
    pub measure_mode: bool,
}

/// What the application does after the key presses, besides the new view state.
#[derive(Debug, Clone, Copy, PartialEq, Eq, Structural)]
pub struct KeyActions {
    /// Every radar panel and cached animation texture must be rendered again.
    pub refresh_all: bool,
    /// Storm motion must be estimated (storm-relative velocity was just selected).
    pub estimate_storm_motion: bool,
    /// Wall mode must be started.
    pub start_wall: bool,
    /// Mosaic mode must be switched on.
    pub activate_mosaic: bool,
    /// Mosaic mode must be switched off.
    pub deactivate_mosaic: bool,
    /// The animation clock restarts now.
    pub restart_clock: bool,
    /// The animation frame to show as the current volume.
    pub show_frame: Option<usize>,
    pub zoom_in: bool,
    pub zoom_out: bool,
    pub fetch_latest: bool,
    /// The measuring line must be cleared.
    pub clear_measure: bool,
}

/// Tilt up: the next sweep, if the current volume has one.
pub open spec fn tilt_up(e: usize, sweeps: Option<usize>) -> usize {
    match sweeps {
        Some(n) => if e + 1 < n { (e + 1) as usize } else { e },
        None => e,
    }
}

/// Tilt down: the previous sweep, stopping at the lowest.
pub open spec fn tilt_down(e: usize) -> usize {
    if e > 0 { (e - 1) as usize } else { e }
}

/// The next product, wrapping around after the last of `n`.
pub open spec fn next_product(p: usize, n: usize) -> usize {
    ((p + 1) % (n as int)) as usize
}

/// The previous product, wrapping around before the first of `n`.
pub open spec fn prev_product(p: usize, n: usize) -> usize {
    if p == 0 { (n - 1) as usize } else { (p - 1) as usize }
}

/// The product after the arrow keys.
pub open spec fn arrow_product(p: usize, k: KeyPresses, n: usize) -> usize {
    let p1 = if k.right { next_product(p, n) } else { p };
    if k.left { prev_product(p1, n) } else { p1 }
}

/// The number key selects a product that exists.
pub open spec fn num_selects(k: KeyPresses, n: usize) -> bool {
    k.num matches Some(i) && i < n
}

/// The sweep after the arrow keys.
pub open spec fn arrow_elevation(e: usize, k: KeyPresses, sweeps: Option<usize>) -> usize {
    let e1 = if k.up { tilt_up(e, sweeps) } else { e };
    if k.down { tilt_down(e1) } else { e1 }
}

/// The animation frame after Period and Comma, among `len` frames.
pub open spec fn stepped_frame(i: usize, k: KeyPresses, len: usize) -> usize {
    let i1 = if k.period && len > 0 { ((i + 1) % (len as int)) as usize } else { i };
    if k.comma && len > 0 { if i1 == 0 { (len - 1) as usize } else { (i1 - 1) as usize } } else { i1 }
}

/// Applies one frame's key presses to the view. `sweeps` is the number of sweeps of
/// the current volume (none without one), `product_count` the length of the product
/// list, `srv` the index of storm-relative velocity in it, and `anim_len` the number
/// of loaded animation frames. The keys act in this order: Up, Down, Right, Left, Q,
/// W, M, Space, Period, Comma, then the toggles, zoom, L and the number key.
pub fn key_step(
    s: &ViewState,
    keys: &KeyPresses,
    sweeps: Option<usize>,
    product_count: usize,
    srv: usize,
    anim_len: usize,
) -> (r: (ViewState, KeyActions))
    requires
        s.product < product_count,
        anim_len > 0 ==> s.anim_index < anim_len,
    ensures
        ({
            let (t, a) = r;
            let e1 = if keys.up { tilt_up(s.elevation, sweeps) } else { s.elevation };
            let p1 = if keys.right { next_product(s.product, product_count) } else { s.product };
            let p2 = arrow_product(s.product, *keys, product_count);
            let p3 = if num_selects(*keys, product_count) { keys.num->Some_0 } else { p2 };
            let elevation_moved = e1 != s.elevation || arrow_elevation(s.elevation, *keys, sweeps) != e1;
            let refresh = elevation_moved || keys.right || keys.left || num_selects(*keys, product_count);
            let quad = if keys.q { !s.quad_view } else { s.quad_view };
            let playing1 = if keys.space && anim_len > 0 { !s.anim_playing } else { s.anim_playing };
            let stepped = (keys.period || keys.comma) && anim_len > 0;
            let model = if keys.y { !s.model_mode } else { s.model_mode };
            &&& t.elevation == arrow_elevation(s.elevation, *keys, sweeps)
            &&& t.product == p3
            &&& t.product < product_count
            &&& a.refresh_all == refresh
            &&& a.estimate_storm_motion == ((keys.right && p1 == srv && s.product != srv)
                || (keys.left && p2 == srv && p1 != srv)
                || (num_selects(*keys, product_count) && p3 == srv && p2 != srv))
            &&& t.quad_view == quad
            &&& t.dual_pane == (if keys.q && quad { false } else { s.dual_pane })
            &&& t.wall_mode == (if keys.w && s.wall_mode { false } else { s.wall_mode })
            &&& a.start_wall == (keys.w && !s.wall_mode)
            &&& t.mosaic_mode == s.mosaic_mode
            &&& a.activate_mosaic == (keys.m && !s.mosaic_mode)
            &&& a.deactivate_mosaic == (keys.m && s.mosaic_mode)
            &&& a.restart_clock == (keys.space && anim_len > 0 && !s.anim_playing)
            &&& t.anim_playing == (if stepped { false } else { playing1 })
            &&& t.anim_index == stepped_frame(s.anim_index, *keys, anim_len)
            &&& a.show_frame == (if stepped { Some(stepped_frame(s.anim_index, *keys, anim_len)) } else { None })
            &&& anim_len > 0 ==> t.anim_index < anim_len
            &&& t.needs_render == (s.needs_render || refresh || keys.q || stepped || keys.plus || keys.minus)
            &&& t.show_help == (s.show_help != keys.help)
            &&& t.show_range_rings == (s.show_range_rings != keys.r)
            &&& t.show_detections == (s.show_detections != keys.d)
            &&& t.model_mode == model
            &&& t.sounding_mode == (if keys.y && model { false } else { s.sounding_mode != keys.s })
            &&& t.measure_mode == (s.measure_mode != keys.m)
            &&& a.clear_measure == (keys.m && !s.measure_mode)
            &&& a.zoom_in == keys.plus
            &&& a.zoom_out == keys.minus
            &&& a.fetch_latest == keys.l
        }),
{
    let (elevation, tilted) = step_elevation(s.elevation, keys, sweeps);
    let (product, estimate) = step_product(s.product, keys, product_count, srv);
    let refresh = tilted || keys.right || keys.left || product_number(keys, product_count);
    let (anim_index, anim_playing, restart_clock, show_frame) = step_animation(s, keys, anim_len);
    let quad_view = s.quad_view != keys.q;
    let dual_pane = if keys.q && quad_view { false } else { s.dual_pane };
    let model_mode = s.model_mode != keys.y;
    let sounding_mode = if keys.y && model_mode { false } else { s.sounding_mode != keys.s };
    let stepped = show_frame.is_some();
    let t = ViewState {
        elevation,
        product,
        quad_view,
        dual_pane,
        wall_mode: s.wall_mode && !keys.w,
        mosaic_mode: s.mosaic_mode,
        anim_playing,
        anim_index,
        needs_render: s.needs_render || refresh || keys.q || stepped || keys.plus || keys.minus,
        show_help: s.show_help != keys.help,
        show_range_rings: s.show_range_rings != keys.r,
        show_detections: s.show_detections != keys.d,
        sounding_mode,
        model_mode,
        measure_mode: s.measure_mode != keys.m,
    };
    let a = KeyActions {
        refresh_all: refresh,
        estimate_storm_motion: estimate,
        start_wall: keys.w && !s.wall_mode,
        activate_mosaic: keys.m && !s.mosaic_mode,
        deactivate_mosaic: keys.m && s.mosaic_mode,
        restart_clock,
        show_frame,
        zoom_in: keys.plus,
        zoom_out: keys.minus,
        fetch_latest: keys.l,
        clear_measure: keys.m && !s.measure_mode,
    };
    (t, a)
}

/// Up, then Down: the new sweep and whether it changed at either step.
fn step_elevation(e: usize, keys: &KeyPresses, sweeps: Option<usize>) -> (r: (usize, bool))
    ensures
        r.0 == arrow_elevation(e, *keys, sweeps),
        r.1 == ((if keys.up { tilt_up(e, sweeps) } else { e }) != e
            || r.0 != (if keys.up { tilt_up(e, sweeps) } else { e })),
{
    let mut t = e;
    let mut moved = false;
    if keys.up {
        if let Some(n) = sweeps {
            if t < n && t + 1 < n {
                t = t + 1;
                moved = true;
            }
        }
    }
    if keys.down && t > 0 {
        t = t - 1;
        moved = true;
    }
    (t, moved)
}

/// Whether the number key selects an existing product.
fn product_number(keys: &KeyPresses, n: usize) -> (b: bool)
    ensures
        b == num_selects(*keys, n),
{
    match keys.num {
        Some(i) => i < n,
        None => false,
    }
}

/// Right, Left, then the number key: the new product and whether storm-relative
/// velocity was selected at one of these steps.
fn step_product(p: usize, keys: &KeyPresses, n: usize, srv: usize) -> (r: (usize, bool))
    requires
        p < n,
    ensures
        ({
            let p1 = if keys.right { next_product(p, n) } else { p };
            let p2 = arrow_product(p, *keys, n);
            let p3 = if num_selects(*keys, n) { keys.num->Some_0 } else { p2 };
            &&& r.0 == p3
            &&& r.0 < n
            &&& r.1 == ((keys.right && p1 == srv && p != srv) || (keys.left && p2 == srv && p1 != srv)
                || (num_selects(*keys, n) && p3 == srv && p2 != srv))
        }),
{
    let mut t = p;
    let mut estimate = false;
    if keys.right {
        let next = (t + 1) % n;
        estimate = next == srv && t != srv;
        t = next;
    }
    if keys.left {
        let prev = if t == 0 { n - 1 } else { t - 1 };
        estimate = estimate || (prev == srv && t != srv);
        t = prev;
    }
    if let Some(i) = keys.num {
        if i < n {
            estimate = estimate || (i == srv && t != srv);
            t = i;
        }
    }
    (t, estimate)
}

/// Space, Period, Comma: the new frame index, whether playing, whether the clock
/// restarts, and the frame to show.
fn step_animation(s: &ViewState, keys: &KeyPresses, len: usize) -> (r: (usize, bool, bool, Option<usize>))
    requires
        len > 0 ==> s.anim_index < len,
    ensures
        ({
            let playing1 = if keys.space && len > 0 { !s.anim_playing } else { s.anim_playing };
            let stepped = (keys.period || keys.comma) && len > 0;
            &&& r.0 == stepped_frame(s.anim_index, *keys, len)
            &&& len > 0 ==> r.0 < len
            &&& r.1 == (if stepped { false } else { playing1 })
            &&& r.2 == (keys.space && len > 0 && !s.anim_playing)
            &&& r.3 == (if stepped { Some(stepped_frame(s.anim_index, *keys, len)) } else { None })
        }),
{
    let mut playing = s.anim_playing;
    let mut index = s.anim_index;
    let mut restart = false;
    let mut show: Option<usize> = None;
    if keys.space && len > 0 {
        playing = !playing;
        restart = playing;
    }
    if keys.period && len > 0 {
        playing = false;
        index = (index + 1) % len;
        show = Some(index);
    }
    if keys.comma && len > 0 {
        playing = false;
        index = if index == 0 { len - 1 } else { index - 1 };
        show = Some(index);
    }
    (index, playing, restart, show)
}

/// Left undoes Right: from any product, the next product's previous one is where
/// the list started.
pub proof fn law_left_undoes_right(p: usize, n: usize)
    requires
        p < n,
    ensures
        prev_product(next_product(p, n), n) == p,
        next_product(prev_product(p, n), n) == p,
{
    if p + 1 < n {
        assert((p + 1) % (n as int) == p + 1) by (nonlinear_arith)
            requires p + 1 < n;
    } else {
        assert((p + 1) % (n as int) == 0) by (nonlinear_arith)
            requires p + 1 == n, n > 0;
    }
    if p == 0 {
        assert(((n - 1) as int + 1) % (n as int) == 0) by (nonlinear_arith)
            requires n > 0;
    } else {
        assert((p as int) % (n as int) == p) by (nonlinear_arith)
            requires 0 < p < n;
    }
}

/// Pressing Right in one frame and Left in the next leaves the product where it was.
pub proof fn law_key_right_then_left(s: ViewState, k1: KeyPresses, k2: KeyPresses, n: usize, t: ViewState)
    requires
        s.product < n,
        k1.right && !k1.left && k1.num is None,
        k2.left && !k2.right && k2.num is None,
        t.product == arrow_product(s.product, k1, n),
    ensures
        arrow_product(t.product, k2, n) == s.product,
{
    law_left_undoes_right(s.product, n);
}

/// Tilting up and then down returns to the same sweep when the volume has a sweep
/// above; at the top, Up stays put.
pub proof fn law_tilt_up_then_down(e: usize, sweeps: Option<usize>)
    ensures
        tilt_up(e, sweeps) != e ==> tilt_down(tilt_up(e, sweeps)) == e,
        sweeps matches Some(n) && e + 1 >= n ==> tilt_up(e, sweeps) == e,
{
}

} // verus!
