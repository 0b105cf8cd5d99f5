use crate::fifo::{queue_add, queue_items, queue_new, queue_remove, queue_size};
use crate::utils::{
    flat, get_pixel_vec, in_grid, lemma_flat_in_range, lemma_flat_injective, pix, samples_of,
    EffectError, Raster, Rgba, RgbaPixel,
};
use vstd::prelude::*;

verus! {

// ---------------------------------------------------------------------------
// Grayscale and inversion
// ---------------------------------------------------------------------------

/// The grey of a pixel: each colour channel becomes the floor of the mean of the three, and
/// alpha is kept.
pub open spec fn gray_of(p: Rgba) -> Rgba {
    let v = ((p.r as int + p.g as int + p.b as int) / 3) as u8;
    Rgba { r: v, g: v, b: v, a: p.a }
}

pub open spec fn grayscaled(s: Seq<Rgba>) -> Seq<Rgba> {
    s.map_values(|p: Rgba| gray_of(p))
}

/// Each colour channel of a pixel replaced by `255` minus it; alpha is kept.
pub open spec fn inverse_of(p: Rgba) -> Rgba {
    Rgba { r: (255 - p.r) as u8, g: (255 - p.g) as u8, b: (255 - p.b) as u8, a: p.a }
}

pub open spec fn inverted(s: Seq<Rgba>) -> Seq<Rgba> {
    s.map_values(|p: Rgba| inverse_of(p))
}

/// Replaces every pixel by its grey. Every output pixel is computed from the pixel as it was
/// before the call.
pub fn grayscale(image: &mut Raster)
    requires
        old(image).wf(),
    ensures
        final(image).wf(),
        final(image).width == old(image).width,
        final(image).height == old(image).height,
        final(image).pixels@ == grayscaled(old(image).pixels@),
{
    let ghost orig = image.pixels@;
    let ghost snap = *image;
    let pixels = get_pixel_vec(image);
    let mut k: usize = 0;
    while k < pixels.len()
        invariant
            image.wf(),
            image.width == old(image).width,
            image.height == old(image).height,
            orig == old(image).pixels@,
            pixels@.len() == orig.len(),
            snap.pixels@ == orig,
            snap.height == image.height,
            snap.width == image.width,
            image.pixels@.len() == orig.len(),
            samples_of(&snap, pixels@),
            k <= pixels@.len(),
            forall|j: int| 0 <= j < k ==> image.pixels@[j] == gray_of(orig[j]),
            forall|j: int| k <= j < orig.len() ==> image.pixels@[j] == orig[j],
        decreases pixels.len() - k,
    {
        let pixel = pixels[k];
        let rgb = pixel.data;
        // Widened so that the sum of three channels cannot overflow.
        let mut gray: u16 = rgb.r as u16;
        gray += rgb.g as u16;
        gray += rgb.b as u16;
        gray /= 3;
        let updated = Rgba { r: gray as u8, g: gray as u8, b: gray as u8, a: rgb.a };
        let _ = image.put_pixel(pixel.row_index, pixel.col_index, updated);
        k = k + 1;
    }
    assert(image.pixels@ =~= grayscaled(orig));
}

/// Replaces every colour channel `v` of every pixel by `255 - v`; alpha is kept.
pub fn invert_color(image: &mut Raster)
    requires
        old(image).wf(),
    ensures
        final(image).wf(),
        final(image).width == old(image).width,
        final(image).height == old(image).height,
        final(image).pixels@ == inverted(old(image).pixels@),
{
    let ghost orig = image.pixels@;
    let ghost snap = *image;
    let pixels = get_pixel_vec(image);
    let mut k: usize = 0;
    while k < pixels.len()
        invariant
            image.wf(),
            image.width == old(image).width,
            image.height == old(image).height,
            orig == old(image).pixels@,
            pixels@.len() == orig.len(),
            snap.pixels@ == orig,
            snap.height == image.height,
            snap.width == image.width,
            image.pixels@.len() == orig.len(),
            samples_of(&snap, pixels@),
            k <= pixels@.len(),
            forall|j: int| 0 <= j < k ==> image.pixels@[j] == inverse_of(orig[j]),
            forall|j: int| k <= j < orig.len() ==> image.pixels@[j] == orig[j],
        decreases pixels.len() - k,
    {
        let pixel = pixels[k];
        let mut new_rgba = pixel.data;
        new_rgba.r = 255 - new_rgba.r;
        new_rgba.g = 255 - new_rgba.g;
        new_rgba.b = 255 - new_rgba.b;
        let _ = image.put_pixel(pixel.row_index, pixel.col_index, new_rgba);
        k = k + 1;
    }
    assert(image.pixels@ =~= inverted(orig));
}

// ---------------------------------------------------------------------------
// Edge detection
// ---------------------------------------------------------------------------

/// Brightness of a pixel: `0.299 R + 0.587 G + 0.114 B`, rounded down.
pub open spec fn luminance_of(p: Rgba) -> int {
    (299 * p.r as int + 587 * p.g as int + 114 * p.b as int) / 1000
}

/// Brightness of a pixel, from `0` to `255`.
fn luminance(color: Rgba) -> (r: i32)
    ensures
        r == luminance_of(color),
        0 <= r <= 255,
{
    let red = color.r as i32;
    let green = color.g as i32;
    let blue = color.b as i32;
    (299 * red + 587 * green + 114 * blue) / 1000
}

/// Luminance of the pixel at offset `(i - 1, j - 1)` from `(row, col)`, or `0` where that
/// falls outside the raster.
pub open spec fn neighbour_lum(s: Seq<Rgba>, w: int, h: int, row: int, col: int, i: int, j: int) -> int {
    if in_grid(w, h, row + i - 1, col + j - 1) {
        luminance_of(pix(s, h, row + i - 1, col + j - 1))
    } else {
        0
    }
}

/// The neighbourhood convolved with the kernel `[[-1, 0, 1], [-2, 0, 2], [-1, 0, 1]]`.
pub open spec fn gradient_y(s: Seq<Rgba>, w: int, h: int, row: int, col: int) -> int {
    -neighbour_lum(s, w, h, row, col, 0, 0) + neighbour_lum(s, w, h, row, col, 0, 2) - 2
        * neighbour_lum(s, w, h, row, col, 1, 0) + 2 * neighbour_lum(s, w, h, row, col, 1, 2)
        - neighbour_lum(s, w, h, row, col, 2, 0) + neighbour_lum(s, w, h, row, col, 2, 2)
}

/// The neighbourhood convolved with the kernel `[[1, 2, 1], [0, 0, 0], [-1, -2, -1]]`.
pub open spec fn gradient_x(s: Seq<Rgba>, w: int, h: int, row: int, col: int) -> int {
    neighbour_lum(s, w, h, row, col, 0, 0) + 2 * neighbour_lum(s, w, h, row, col, 0, 1)
        + neighbour_lum(s, w, h, row, col, 0, 2) - neighbour_lum(s, w, h, row, col, 2, 0) - 2
        * neighbour_lum(s, w, h, row, col, 2, 1) - neighbour_lum(s, w, h, row, col, 2, 2)
}

/// Counts up from `m` while the next value is at most `255` and its square at most `n`.
pub open spec fn level_from(n: int, m: int) -> int
    decreases 255 - m,
{
    if m >= 255 || (m + 1) * (m + 1) > n {
        m
    } else {
        level_from(n, m + 1)
    }
}

/// The square root of `n` rounded down, capped at `255`.
pub open spec fn gradient_level(n: int) -> int {
    level_from(n, 0)
}

/// `(row, col)` lies on the first or last row or column.
pub open spec fn on_border(w: int, h: int, row: int, col: int) -> bool {
    row == 0 || col == 0 || row == w - 1 || col == h - 1
}

/// The edge-detection output at `(row, col)` from the grey pixels `g`: border pixels are kept,
/// others become the gradient magnitude in each colour channel with their alpha kept.
pub open spec fn edge_pixel(g: Seq<Rgba>, w: int, h: int, row: int, col: int) -> Rgba {
    if on_border(w, h, row, col) {
        pix(g, h, row, col)
    } else {
        let gx = gradient_x(g, w, h, row, col);
        let gy = gradient_y(g, w, h, row, col);
        let m = gradient_level(gx * gx + gy * gy) as u8;
        Rgba { r: m, g: m, b: m, a: pix(g, h, row, col).a }
    }
}

/// The square root of `n` rounded down, capped at `255`.
fn gradient_magnitude(n: i32) -> (r: u8)
    requires
        n >= 0,
    ensures
        r == gradient_level(n as int),
        r as int * r as int <= n,
        r == 255 || n < (r as int + 1) * (r as int + 1),
{
    let mut m: i32 = 0;
    let mut done = false;
    while !done
        invariant
            0 <= m <= 255,
            m * m <= n,
            level_from(n as int, m as int) == level_from(n as int, 0),
            done ==> level_from(n as int, m as int) == m,
            done ==> m == 255 || n < (m + 1) * (m + 1),
        decreases 255 - m + if done {
            0int
        } else {
            1int
        },
    {
        if m >= 255 {
            done = true;
        } else {
            let next = m + 1;
            proof {
                assert(next * next <= 65536) by (nonlinear_arith)
                    requires
                        1 <= next <= 255,
                ;
            }
            if next * next > n {
                done = true;
            } else {
                m = next;
            }
        }
    }
    m as u8
}

/// Luminance of the snapshot pixel at offset `(i - 1, j - 1)` from `(x, y)`, or `0` outside.
fn neighbour_luminance(
    pixels: &Vec<RgbaPixel>,
    w: u32,
    h: u32,
    x: u32,
    y: u32,
    i: u32,
    j: u32,
    Ghost(g): Ghost<Seq<Rgba>>,
) -> (r: i32)
    requires
        i < 3,
        j < 3,
        pixels@.len() == w as int * h as int,
        forall|k: int| 0 <= k < pixels@.len() ==> (#[trigger] pixels@[k]).data == g[k],
    ensures
        r == neighbour_lum(g, w as int, h as int, x as int, y as int, i as int, j as int),
        0 <= r <= 255,
{
    let nr: i64 = x as i64 + i as i64 - 1;
    let nc: i64 = y as i64 + j as i64 - 1;
    if nr < 0 || nr >= w as i64 || nc < 0 || nc >= h as i64 {
        return 0;
    }
    let len = pixels.len();
    proof {
        lemma_flat_in_range(w as int, h as int, nr as int, nc as int);
    }
    let index = nr as usize * h as usize + nc as usize;
    luminance(pixels[index].data)
}

/// Every pixel of `after` is the edge-detection output of `before` there.
pub open spec fn edge_detected(before: Raster, after: Raster) -> bool {
    forall|r: int, c: int|
        #![trigger after.at(r, c)]
        before.in_bounds(r, c) ==> after.at(r, c) == edge_pixel(
            grayscaled(before.pixels@),
            before.width as int,
            before.height as int,
            r,
            c,
        )
}

/// Turns the raster grey, then replaces each pixel off the border by the magnitude of its
/// Sobel gradient, read from the grey raster as it was before this second pass.
pub fn edge_detect(image: &mut Raster)
    requires
        old(image).wf(),
    ensures
        final(image).wf(),
        final(image).width == old(image).width,
        final(image).height == old(image).height,
        edge_detected(*old(image), *final(image)),
{
    grayscale(image);
    let ghost g = image.pixels@;
    let ghost wi = image.width as int;
    let ghost hi = image.height as int;
    let w = image.width;
    let h = image.height;
    let pixels = get_pixel_vec(image);
    let ghost snap = *image;
    let mut k: usize = 0;
    while k < pixels.len()
        invariant
            image.wf(),
            image.width == w,
            image.height == h,
            wi == w,
            hi == h,
            snap.wf(),
            snap.width == w,
            snap.height == h,
            snap.pixels@ == g,
            pixels@.len() == g.len(),
            samples_of(&snap, pixels@),
            k <= pixels@.len(),
            forall|j: int| 0 <= j < k ==> image.pixels@[j] == edge_pixel(
                g,
                wi,
                hi,
                (#[trigger] pixels@[j]).row_index as int,
                pixels@[j].col_index as int,
            ),
            forall|j: int| k <= j < g.len() ==> image.pixels@[j] == g[j],
        decreases pixels.len() - k,
    {
        let pixel = pixels[k];
        let x = pixel.row_index;
        let y = pixel.col_index;
        if x == 0 || y == 0 || x == w - 1 || y == h - 1 {
            k = k + 1;
            continue;
        }
        let l00 = neighbour_luminance(&pixels, w, h, x, y, 0, 0, Ghost(g));
        let l01 = neighbour_luminance(&pixels, w, h, x, y, 0, 1, Ghost(g));
        let l02 = neighbour_luminance(&pixels, w, h, x, y, 0, 2, Ghost(g));
        let l10 = neighbour_luminance(&pixels, w, h, x, y, 1, 0, Ghost(g));
        let l12 = neighbour_luminance(&pixels, w, h, x, y, 1, 2, Ghost(g));
        let l20 = neighbour_luminance(&pixels, w, h, x, y, 2, 0, Ghost(g));
        let l21 = neighbour_luminance(&pixels, w, h, x, y, 2, 1, Ghost(g));
        let l22 = neighbour_luminance(&pixels, w, h, x, y, 2, 2, Ghost(g));
        let gradient_y = -l00 + l02 - 2 * l10 + 2 * l12 - l20 + l22;
        let gradient_x = l00 + 2 * l01 + l02 - l20 - 2 * l21 - l22;
        proof {
            assert(0 <= gradient_x * gradient_x <= 1020 * 1020) by (nonlinear_arith)
                requires
                    -1020 <= gradient_x <= 1020,
            ;
            assert(0 <= gradient_y * gradient_y <= 1020 * 1020) by (nonlinear_arith)
                requires
                    -1020 <= gradient_y <= 1020,
            ;
        }
        let color = gradient_magnitude(gradient_x * gradient_x + gradient_y * gradient_y);
        let updated = Rgba { r: color, g: color, b: color, a: pixel.data.a };
        let _ = image.put_pixel(x, y, updated);
        k = k + 1;
    }
    assert forall|r: int, c: int| image.in_bounds(r, c) implies #[trigger] image.at(r, c)
        == edge_pixel(g, wi, hi, r, c) by {
        lemma_flat_in_range(wi, hi, r, c);
        let j = flat(hi, r, c);
        lemma_flat_injective(hi, r, c, pixels@[j].row_index as int, pixels@[j].col_index as int);
    }
    assert(edge_detected(*old(image), *image));
}

// ---------------------------------------------------------------------------
// Flood fill
// ---------------------------------------------------------------------------

/// `(r2, c2)` is one of the eight neighbours of `(r, c)`.
pub open spec fn near(r: int, c: int, r2: int, c2: int) -> bool {
    -1 <= r2 - r <= 1 && -1 <= c2 - c <= 1 && (r2 != r || c2 != c)
}

/// `path` is a walk of 8-connected steps over pixels of `s` that all have the colour `color`.
pub open spec fn is_walk(s: Seq<Rgba>, w: int, h: int, color: Rgba, path: Seq<(int, int)>) -> bool {
    &&& forall|i: int|
        0 <= i < path.len() ==> in_grid(w, h, #[trigger] path[i].0, path[i].1) && pix(
            s,
            h,
            path[i].0,
            path[i].1,
        ) == color
    &&& forall|i: int|
        0 <= i < path.len() - 1 ==> near(#[trigger] path[i].0, path[i].1, path[i + 1].0, path[i + 1].1)
}

/// `(r, c)` lies in the 8-connected region of pixels of `s` that have the seed's colour and
/// hold the seed.
pub open spec fn in_region(s: Seq<Rgba>, w: int, h: int, seed: (int, int), r: int, c: int) -> bool {
    exists|path: Seq<(int, int)>|
        #![trigger is_walk(s, w, h, pix(s, h, seed.0, seed.1), path)]
        path.len() > 0 && path[0] == seed && path.last() == (r, c) && is_walk(
            s,
            w,
            h,
            pix(s, h, seed.0, seed.1),
            path,
        )
}

pub open spec fn count_true(s: Seq<bool>) -> nat
    decreases s.len(),
{
    if s.len() == 0 {
        0
    } else {
        count_true(s.drop_last()) + if s.last() {
            1nat
        } else {
            0nat
        }
    }
}

proof fn lemma_count_true_bound(s: Seq<bool>)
    ensures
        count_true(s) <= s.len(),
    decreases s.len(),
{
    if s.len() > 0 {
        lemma_count_true_bound(s.drop_last());
    }
}

proof fn lemma_count_true_set(s: Seq<bool>, i: int)
    requires
        0 <= i < s.len(),
        !s[i],
    ensures
        count_true(s.update(i, true)) == count_true(s) + 1,
    decreases s.len(),
{
    if i == s.len() - 1 {
        assert(s.update(i, true).drop_last() =~= s.drop_last());
    } else {
        lemma_count_true_set(s.drop_last(), i);
        assert(s.update(i, true).drop_last() =~= s.drop_last().update(i, true));
    }
}

/// Every same-coloured neighbour of `(r, c)` is marked in `vis`.
spec fn closed_at(orig: Seq<Rgba>, w: int, h: int, target: Rgba, vis: Seq<bool>, r: int, c: int) -> bool {
    forall|r2: int, c2: int|
        in_grid(w, h, r2, c2) && near(r, c, r2, c2) && #[trigger] pix(orig, h, r2, c2) == target
            ==> vis[flat(h, r2, c2)]
}

spec fn queued(q: Seq<(u32, u32)>, r: int, c: int) -> bool {
    q.contains((r as u32, c as u32))
}

/// The state of a fill: marked pixels lie in the region, pixels marked and no longer queued
/// are painted, all others keep their colour, and the queue holds marked pixels once each.
spec fn fill_state(
    orig: Seq<Rgba>,
    w: int,
    h: int,
    seed: (int, int),
    color: Rgba,
    img: Seq<Rgba>,
    vis: Seq<bool>,
    q: Seq<(u32, u32)>,
) -> bool {
    &&& 0 <= w <= u32::MAX && 0 <= h <= u32::MAX
    &&& img.len() == w * h && vis.len() == w * h && orig.len() == w * h
    &&& in_grid(w, h, seed.0, seed.1)
    &&& vis[flat(h, seed.0, seed.1)]
    &&& forall|r: int, c: int|
        in_grid(w, h, r, c) && #[trigger] vis[flat(h, r, c)] ==> in_region(orig, w, h, seed, r, c)
    &&& forall|r: int, c: int|
        in_grid(w, h, r, c) ==> #[trigger] pix(img, h, r, c) == if vis[flat(h, r, c)] && !queued(
            q,
            r,
            c,
        ) {
            color
        } else {
            pix(orig, h, r, c)
        }
    &&& forall|i: int|
        0 <= i < q.len() ==> in_grid(w, h, (#[trigger] q[i]).0 as int, q[i].1 as int) && vis[flat(
            h,
            q[i].0 as int,
            q[i].1 as int,
        )]
    &&& q.no_duplicates()
}

/// Every marked pixel that has left the queue, but for `cur`, has all its same-coloured
/// neighbours marked.
spec fn closed_but(
    orig: Seq<Rgba>,
    w: int,
    h: int,
    target: Rgba,
    vis: Seq<bool>,
    q: Seq<(u32, u32)>,
    cur: (int, int),
) -> bool {
    forall|r: int, c: int|
        in_grid(w, h, r, c) && #[trigger] vis[flat(h, r, c)] && !queued(q, r, c) && (r, c) != cur
            ==> closed_at(orig, w, h, target, vis, r, c)
}

proof fn lemma_region_step(
    s: Seq<Rgba>,
    w: int,
    h: int,
    seed: (int, int),
    r: int,
    c: int,
    r2: int,
    c2: int,
)
    requires
        in_region(s, w, h, seed, r, c),
        in_grid(w, h, r2, c2),
        near(r, c, r2, c2),
        pix(s, h, r2, c2) == pix(s, h, seed.0, seed.1),
    ensures
        in_region(s, w, h, seed, r2, c2),
{
    let target = pix(s, h, seed.0, seed.1);
    let path = choose|path: Seq<(int, int)>|
        path.len() > 0 && path[0] == seed && path.last() == (r, c) && is_walk(s, w, h, target, path);
    let p2 = path.push((r2, c2));
    assert(p2[p2.len() - 2] == (r, c));
    assert forall|i: int| 0 <= i < p2.len() - 1 implies near(
        #[trigger] p2[i].0,
        p2[i].1,
        p2[i + 1].0,
        p2[i + 1].1,
    ) by {
        if i < path.len() - 1 {
            assert(p2[i] == path[i] && p2[i + 1] == path[i + 1]);
            assert(near(path[i].0, path[i].1, path[i + 1].0, path[i + 1].1));
        }
    }
    assert forall|i: int| 0 <= i < p2.len() implies in_grid(w, h, #[trigger] p2[i].0, p2[i].1)
        && pix(s, h, p2[i].0, p2[i].1) == target by {
        if i < path.len() {
            assert(p2[i] == path[i]);
            assert(in_grid(w, h, path[i].0, path[i].1));
        }
    }
    assert(is_walk(s, w, h, target, p2));
    assert(p2[0] == seed);
}

/// Every pixel of a walk from the seed is marked, when the marked pixels are closed.
proof fn lemma_walk_marked(
    orig: Seq<Rgba>,
    w: int,
    h: int,
    seed: (int, int),
    vis: Seq<bool>,
    path: Seq<(int, int)>,
    k: int,
)
    requires
        0 <= k < path.len(),
        path[0] == seed,
        is_walk(orig, w, h, pix(orig, h, seed.0, seed.1), path),
        vis[flat(h, seed.0, seed.1)],
        forall|r: int, c: int|
            in_grid(w, h, r, c) && #[trigger] vis[flat(h, r, c)] ==> closed_at(
                orig,
                w,
                h,
                pix(orig, h, seed.0, seed.1),
                vis,
                r,
                c,
            ),
    ensures
        vis[flat(h, path[k].0, path[k].1)],
    decreases k,
{
    if k > 0 {
        lemma_walk_marked(orig, w, h, seed, vis, path, k - 1);
        let p = path[k - 1];
        let n = path[k];
        assert(in_grid(w, h, p.0, p.1));
        assert(in_grid(w, h, n.0, n.1));
        assert(near(p.0, p.1, n.0, n.1));
        assert(closed_at(orig, w, h, pix(orig, h, seed.0, seed.1), vis, p.0, p.1));
        assert(pix(orig, h, n.0, n.1) == pix(orig, h, seed.0, seed.1));
    }
}

/// Marking and queueing an unmarked pixel of the region keeps the state of a fill.
proof fn lemma_mark_step(
    orig: Seq<Rgba>,
    wi: int,
    hi: int,
    seed: (int, int),
    color: Rgba,
    target: Rgba,
    img: Seq<Rgba>,
    vis_before: Seq<bool>,
    q_before: Seq<(u32, u32)>,
    vis: Seq<bool>,
    q: Seq<(u32, u32)>,
    r2: int,
    c2: int,
    cur: (int, int),
)
    requires
        fill_state(orig, wi, hi, seed, color, img, vis_before, q_before),
        closed_but(orig, wi, hi, target, vis_before, q_before, cur),
        in_grid(wi, hi, r2, c2),
        !vis_before[flat(hi, r2, c2)],
        in_region(orig, wi, hi, seed, r2, c2),
        vis == vis_before.update(flat(hi, r2, c2), true),
        q == q_before.push((r2 as u32, c2 as u32)),
    ensures
        fill_state(orig, wi, hi, seed, color, img, vis, q),
        closed_but(orig, wi, hi, target, vis, q, cur),
        forall|r: int, c: int|
            in_grid(wi, hi, r, c) ==> #[trigger] vis[flat(hi, r, c)] == (vis_before[flat(hi, r, c)]
                || (r == r2 && c == c2)),
{
    let k = flat(hi, r2, c2);
    lemma_flat_in_range(wi, hi, r2, c2);
    assert(!queued(q_before, r2, c2)) by {
        if queued(q_before, r2, c2) {
            let i = choose|i: int| 0 <= i < q_before.len() && q_before[i] == (r2 as u32, c2 as u32);
            assert(vis_before[flat(hi, q_before[i].0 as int, q_before[i].1 as int)]);
        }
    }
    assert forall|r: int, c: int| in_grid(wi, hi, r, c) implies #[trigger] vis[flat(hi, r, c)] == (
    vis_before[flat(hi, r, c)] || (r == r2 && c == c2)) by {
        lemma_flat_in_range(wi, hi, r, c);
        if flat(hi, r, c) == k {
            lemma_flat_injective(hi, r, c, r2, c2);
        }
    }
    assert forall|r: int, c: int| in_grid(wi, hi, r, c) implies queued(q, r, c) == (queued(
        q_before,
        r,
        c,
    ) || (r == r2 && c == c2)) by {
        if queued(q, r, c) {
            let i = choose|i: int| 0 <= i < q.len() && q[i] == (r as u32, c as u32);
            if i < q_before.len() {
                assert(q_before[i] == q[i]);
            }
        }
        if queued(q_before, r, c) {
            let i = choose|i: int| 0 <= i < q_before.len() && q_before[i] == (r as u32, c as u32);
            assert(q[i] == q_before[i]);
        }
        if r == r2 && c == c2 {
            assert(q[q.len() - 1] == (r2 as u32, c2 as u32));
        }
    }
    assert forall|i: int| 0 <= i < q.len() implies in_grid(
        wi,
        hi,
        (#[trigger] q[i]).0 as int,
        q[i].1 as int,
    ) && vis[flat(hi, q[i].0 as int, q[i].1 as int)] by {
        if i < q_before.len() {
            assert(q[i] == q_before[i]);
        }
    }
    assert forall|i: int, j: int| 0 <= i < q.len() && 0 <= j < q.len() && i != j implies q[i]
        != q[j] by {
        if i < q_before.len() && j < q_before.len() {
            assert(q[i] == q_before[i] && q[j] == q_before[j]);
        } else if i < q_before.len() {
            assert(q[i] == q_before[i]);
        } else if j < q_before.len() {
            assert(q[j] == q_before[j]);
        }
    }
    assert forall|r: int, c: int| in_grid(wi, hi, r, c) implies #[trigger] pix(img, hi, r, c)
        == if vis[flat(hi, r, c)] && !queued(q, r, c) {
        color
    } else {
        pix(orig, hi, r, c)
    } by {}
    assert forall|r: int, c: int|
        in_grid(wi, hi, r, c) && #[trigger] vis[flat(hi, r, c)] implies in_region(
        orig,
        wi,
        hi,
        seed,
        r,
        c,
    ) by {}
    assert forall|r: int, c: int|
        in_grid(wi, hi, r, c) && #[trigger] vis[flat(hi, r, c)] && !queued(q, r, c) && (r, c)
            != cur implies closed_at(orig, wi, hi, target, vis, r, c) by {
        assert(closed_at(orig, wi, hi, target, vis_before, r, c));
        assert forall|ra: int, ca: int|
            in_grid(wi, hi, ra, ca) && near(r, c, ra, ca) && #[trigger] pix(orig, hi, ra, ca)
                == target implies vis[flat(hi, ra, ca)] by {
            assert(vis_before[flat(hi, ra, ca)]);
        }
    }
}

/// Marks and queues each neighbour of `(cr, cc)` that is unmarked and has the colour `target`.
fn enqueue_neighbors(
    image: &Raster,
    visited: &mut Vec<bool>,
    queue: &mut queues::Queue<(u32, u32)>,
    cr: u32,
    cc: u32,
    target: Rgba,
    Ghost(orig): Ghost<Seq<Rgba>>,
    Ghost(seed): Ghost<(int, int)>,
    Ghost(color): Ghost<Rgba>,
)
    requires
        image.wf(),
        image.in_bounds(cr as int, cc as int),
        target == pix(orig, image.height as int, seed.0, seed.1),
        fill_state(
            orig,
            image.width as int,
            image.height as int,
            seed,
            color,
            image.pixels@,
            old(visited)@,
            queue_items(*old(queue)),
        ),
        old(visited)@[flat(image.height as int, cr as int, cc as int)],
        !queued(queue_items(*old(queue)), cr as int, cc as int),
        closed_but(
            orig,
            image.width as int,
            image.height as int,
            target,
            old(visited)@,
            queue_items(*old(queue)),
            (cr as int, cc as int),
        ),
    ensures
        fill_state(
            orig,
            image.width as int,
            image.height as int,
            seed,
            color,
            image.pixels@,
            final(visited)@,
            queue_items(*final(queue)),
        ),
        closed_but(
            orig,
            image.width as int,
            image.height as int,
            target,
            final(visited)@,
            queue_items(*final(queue)),
            (-1, -1),
        ),
        count_true(final(visited)@) - count_true(old(visited)@) == queue_items(*final(queue)).len()
            - queue_items(*old(queue)).len(),
        queue_items(*final(queue)).len() >= queue_items(*old(queue)).len(),
{
    let w = image.width;
    let h = image.height;
    let ghost wi = w as int;
    let ghost hi = h as int;
    let ghost cur = (cr as int, cc as int);
    let ghost vis0 = visited@;
    let ghost q0 = queue_items(*queue);
    let n = image.pixels.len();
    let mut a: u32 = 0;
    while a < 3
        invariant
            a <= 3,
            image.wf(),
            n == image.pixels@.len(),
            w == image.width,
            h == image.height,
            wi == w,
            hi == h,
            image.in_bounds(cr as int, cc as int),
            target == pix(orig, hi, seed.0, seed.1),
            fill_state(orig, wi, hi, seed, color, image.pixels@, visited@, queue_items(*queue)),
            visited@[flat(hi, cr as int, cc as int)],
            !queued(queue_items(*queue), cr as int, cc as int),
            closed_but(orig, wi, hi, target, visited@, queue_items(*queue), cur),
            forall|r2: int, c2: int|
                in_grid(wi, hi, r2, c2) && near(cr as int, cc as int, r2, c2) && r2 - cr + 1 < a
                    && #[trigger] pix(orig, hi, r2, c2) == target ==> visited@[flat(hi, r2, c2)],
            count_true(visited@) - count_true(vis0) == queue_items(*queue).len() - q0.len(),
            queue_items(*queue).len() >= q0.len(),
        decreases 3 - a,
    {
        let mut b: u32 = 0;
        while b < 3
            invariant
                a < 3,
                b <= 3,
                image.wf(),
                n == image.pixels@.len(),
                w == image.width,
                h == image.height,
                wi == w,
                hi == h,
                image.in_bounds(cr as int, cc as int),
                target == pix(orig, hi, seed.0, seed.1),
                fill_state(orig, wi, hi, seed, color, image.pixels@, visited@, queue_items(*queue)),
                visited@[flat(hi, cr as int, cc as int)],
                !queued(queue_items(*queue), cr as int, cc as int),
                closed_but(orig, wi, hi, target, visited@, queue_items(*queue), cur),
                forall|r2: int, c2: int|
                    in_grid(wi, hi, r2, c2) && near(cr as int, cc as int, r2, c2) && (r2 - cr + 1
                        < a || (r2 - cr + 1 == a && c2 - cc + 1 < b)) && #[trigger] pix(
                        orig,
                        hi,
                        r2,
                        c2,
                    ) == target ==> visited@[flat(hi, r2, c2)],
                count_true(visited@) - count_true(vis0) == queue_items(*queue).len() - q0.len(),
            queue_items(*queue).len() >= q0.len(),
            decreases 3 - b,
        {
            let ghost vis_iter = visited@;
            let nr: i64 = cr as i64 + a as i64 - 1;
            let nc: i64 = cc as i64 + b as i64 - 1;
            if (a != 1 || b != 1) && 0 <= nr && nr < w as i64 && 0 <= nc && nc < h as i64 {
                let r2 = nr as u32;
                let c2 = nc as u32;
                proof {
                    lemma_flat_in_range(wi, hi, r2 as int, c2 as int);
                }
                let k = r2 as usize * h as usize + c2 as usize;
                let now = image.pixels[k];
                if !visited[k] && now == target {
                    let ghost vis_before = visited@;
                    let ghost q_before = queue_items(*queue);
                    let ghost img = image.pixels@;
                    proof {
                        // An unmarked pixel still has its original colour.
                        assert(pix(img, hi, r2 as int, c2 as int) == pix(orig, hi, r2 as int, c2 as int));
                        assert(in_region(orig, wi, hi, seed, cr as int, cc as int));
                        lemma_region_step(orig, wi, hi, seed, cr as int, cc as int, r2 as int, c2 as int);
                        lemma_count_true_set(visited@, k as int);
                    }
                    queue_add(queue, (r2, c2));
                    visited.set(k, true);
                    proof {
                        lemma_mark_step(orig, wi, hi, seed, color, target, image.pixels@, vis_before,
                            q_before, visited@, queue_items(*queue), r2 as int, c2 as int, cur);
                    }
                }
            }
            proof {
                assert forall|r2: int, c2: int|
                    in_grid(wi, hi, r2, c2) && near(cr as int, cc as int, r2, c2) && (r2 - cr + 1
                        < a || (r2 - cr + 1 == a && c2 - cc + 1 < b + 1)) && #[trigger] pix(
                        orig,
                        hi,
                        r2,
                        c2,
                    ) == target implies visited@[flat(hi, r2, c2)] by {
                    lemma_flat_in_range(wi, hi, r2, c2);
                    if !(r2 - cr + 1 == a && c2 - cc + 1 == b) {
                        assert(vis_iter[flat(hi, r2, c2)]);
                    } else {
                        assert(pix(image.pixels@, hi, r2, c2) == image.pixels@[flat(hi, r2, c2)]);
                    }
                }
            }
            b = b + 1;
        }
        a = a + 1;
    }
    proof {
        let vis = visited@;
        let q = queue_items(*queue);
        assert(closed_at(orig, wi, hi, target, vis, cr as int, cc as int));
    }
}

/// `after` is `before` with the region of `(row, col)` painted `color` and every other pixel
/// kept.
pub open spec fn flood_filled(before: Raster, after: Raster, row: int, col: int, color: Rgba) -> bool {
    forall|r2: int, c2: int|
        #![trigger after.at(r2, c2)]
        before.in_bounds(r2, c2) ==> after.at(r2, c2) == if in_region(
            before.pixels@,
            before.width as int,
            before.height as int,
            (row, col),
            r2,
            c2,
        ) {
            color
        } else {
            before.at(r2, c2)
        }
}

/// Paints `color` over the 8-connected region of pixels that have the colour of the pixel at
/// `(row, col)` and hold it. The pixel's colour is taken once, before anything is painted, and
/// every other pixel keeps its colour. A seed outside the raster is refused and nothing is
/// changed.
pub fn flood_fill(image: &mut Raster, row: i32, col: i32, color: Rgba) -> (r: Result<(), EffectError>)
    requires
        old(image).wf(),
    ensures
        final(image).wf(),
        final(image).width == old(image).width,
        final(image).height == old(image).height,
        r is Ok <==> old(image).in_bounds(row as int, col as int),
        r is Err ==> r == Err::<(), EffectError>(EffectError::OutOfBounds) && final(image).pixels@
            == old(image).pixels@,
        r is Ok ==> flood_filled(*old(image), *final(image), row as int, col as int, color),
{
    if row < 0 || col < 0 || row as u32 >= image.width || col as u32 >= image.height {
        return Err(EffectError::OutOfBounds);
    }
    let ghost orig = image.pixels@;
    let ghost wi = image.width as int;
    let ghost hi = image.height as int;
    let ghost seed = (row as int, col as int);
    let sr = row as u32;
    let sc = col as u32;
    let n = image.pixels.len();
    proof {
        lemma_flat_in_range(wi, hi, seed.0, seed.1);
    }
    let target = image.pixels[sr as usize * image.height as usize + sc as usize];

    let mut visited: Vec<bool> = Vec::new();
    let mut i: usize = 0;
    while i < n
        invariant
            i <= n,
            visited@.len() == i,
            forall|k: int| 0 <= k < i ==> !visited@[k],
        decreases n - i,
    {
        visited.push(false);
        i = i + 1;
    }
    let mut queue = queue_new();

    let _ = image.put_pixel(sr, sc, color);
    let s = sr as usize * image.height as usize + sc as usize;
    visited.set(s, true);
    proof {
        let vis = visited@;
        let img = image.pixels@;
        let q = queue_items(queue);
        assert(0 <= wi && 0 <= hi);
        assert(in_region(orig, wi, hi, seed, seed.0, seed.1)) by {
            let path = seq![seed];
            assert(is_walk(orig, wi, hi, pix(orig, hi, seed.0, seed.1), path));
        }
        assert forall|r: int, c: int| in_grid(wi, hi, r, c) implies #[trigger] vis[flat(hi, r, c)]
            == (r == seed.0 && c == seed.1) && pix(img, hi, r, c) == if r == seed.0 && c == seed.1 {
            color
        } else {
            pix(orig, hi, r, c)
        } by {
            lemma_flat_in_range(wi, hi, r, c);
            if flat(hi, r, c) == s as int {
                lemma_flat_injective(hi, r, c, seed.0, seed.1);
            }
        }
        assert(!queued(q, seed.0, seed.1));
        assert(fill_state(orig, wi, hi, seed, color, img, vis, q));
        lemma_count_true_bound(vis);
    }
    enqueue_neighbors(image, &mut visited, &mut queue, sr, sc, target, Ghost(orig), Ghost(seed), Ghost(color));

    while queue_size(&queue) != 0
        invariant
            image.wf(),
            image.width == wi,
            image.height == hi,
            target == pix(orig, hi, seed.0, seed.1),
            fill_state(orig, wi, hi, seed, color, image.pixels@, visited@, queue_items(queue)),
            closed_but(orig, wi, hi, target, visited@, queue_items(queue), (-1, -1)),
        decreases 2 * (visited@.len() - count_true(visited@)) + queue_items(queue).len(),
    {
        proof {
            lemma_count_true_bound(visited@);
        }
        let ghost q_before = queue_items(queue);
        let ghost vis = visited@;
        let front = queue_remove(&mut queue);
        match front {
            Some(cur) => {
                let (cr, cc) = cur;
                let ghost img_before = image.pixels@;
                let ghost q = queue_items(queue);
                proof {
                    assert(q_before[0] == cur);
                    assert(in_grid(wi, hi, cr as int, cc as int));
                    assert(!queued(q, cr as int, cc as int)) by {
                        if queued(q, cr as int, cc as int) {
                            let i = choose|i: int| 0 <= i < q.len() && q[i] == (cr, cc);
                            assert(q_before[i + 1] == q[i]);
                        }
                    }
                    assert forall|r: int, c: int| in_grid(wi, hi, r, c) && (r != cr || c != cc)
                        implies queued(q, r, c) == queued(q_before, r, c) by {
                        if queued(q, r, c) {
                            let i = choose|i: int| 0 <= i < q.len() && q[i] == (r as u32, c as u32);
                            assert(q_before[i + 1] == q[i]);
                        }
                        if queued(q_before, r, c) {
                            let i = choose|i: int| 0 <= i < q_before.len() && q_before[i] == (r as u32, c as u32);
                            assert(i != 0);
                            assert(q[i - 1] == q_before[i]);
                        }
                    }
                    lemma_flat_in_range(wi, hi, cr as int, cc as int);
                }
                let _ = image.put_pixel(cr, cc, color);
                proof {
                    let img = image.pixels@;
                    assert forall|r: int, c: int| in_grid(wi, hi, r, c) implies #[trigger] pix(img, hi, r, c)
                        == if vis[flat(hi, r, c)] && !queued(q, r, c) {
                        color
                    } else {
                        pix(orig, hi, r, c)
                    } by {
                        lemma_flat_in_range(wi, hi, r, c);
                        if flat(hi, r, c) == flat(hi, cr as int, cc as int) {
                            lemma_flat_injective(hi, r, c, cr as int, cc as int);
                        } else {
                            assert(pix(img, hi, r, c) == pix(img_before, hi, r, c));
                        }
                    }
                    assert forall|i: int| 0 <= i < q.len() implies in_grid(wi, hi, (#[trigger] q[i]).0 as int, q[i].1 as int)
                        && vis[flat(hi, q[i].0 as int, q[i].1 as int)] by {
                        assert(q[i] == q_before[i + 1]);
                        lemma_flat_in_range(wi, hi, q[i].0 as int, q[i].1 as int);
                    }
                    assert(fill_state(orig, wi, hi, seed, color, img, vis, q));
                    assert(closed_but(orig, wi, hi, target, vis, q, (cr as int, cc as int)));
                }
                enqueue_neighbors(image, &mut visited, &mut queue, cr, cc, target, Ghost(orig), Ghost(seed), Ghost(color));
                proof {
                    assert(visited@.len() == vis.len());
                    assert(count_true(visited@) - count_true(vis) == queue_items(queue).len() - q.len());
                    assert(q.len() == q_before.len() - 1);
                    lemma_count_true_bound(visited@);
                }
            },
            None => {
                assert(false);
            },
        }
    }
    proof {
        let vis = visited@;
        let q = queue_items(queue);
        assert(q.len() == 0);
        assert forall|r: int, c: int| in_grid(wi, hi, r, c) && #[trigger] vis[flat(hi, r, c)]
            implies closed_at(orig, wi, hi, target, vis, r, c) by {
            lemma_flat_in_range(wi, hi, r, c);
            assert(!queued(q, r, c));
        }
        assert forall|r2: int, c2: int| in_grid(wi, hi, r2, c2) implies #[trigger] pix(image.pixels@, hi, r2, c2) == if in_region(orig, wi, hi, seed, r2, c2) {
            color
        } else {
            pix(orig, hi, r2, c2)
        } by {
            assert(!queued(q, r2, c2));
            if in_region(orig, wi, hi, seed, r2, c2) {
                let path = choose|path: Seq<(int, int)>|
                    #![trigger is_walk(orig, wi, hi, pix(orig, hi, seed.0, seed.1), path)]
                    path.len() > 0 && path[0] == seed && path.last() == (r2, c2) && is_walk(
                        orig,
                        wi,
                        hi,
                        pix(orig, hi, seed.0, seed.1),
                        path,
                    );
                lemma_walk_marked(orig, wi, hi, seed, vis, path, path.len() - 1);
            }
        }
    }
    Ok(())
}

// ---------------------------------------------------------------------------
// Effect catalogue
// ---------------------------------------------------------------------------

/// The effects that can be applied to a raster.
#[derive(Clone, Copy, Debug, PartialEq, Eq, Structural)]
pub enum Effect {
    Grayscale,
    EdgeDetect,
    InvertColor,
    FloodFill,
}

/// The effect with the given lower-case name, if there is one.
pub open spec fn effect_named(name: Seq<char>) -> Option<Effect> {
    if name == "grayscale"@ {
        Some(Effect::Grayscale)
    } else if name == "edgedetect"@ {
        Some(Effect::EdgeDetect)
    } else if name == "invertcolor"@ {
        Some(Effect::InvertColor)
    } else if name == "floodfill"@ {
        Some(Effect::FloodFill)
    } else {
        None
    }
}

/// The lower-case form of a string.
pub uninterp spec fn lower_of(s: Seq<char>) -> Seq<char>;

/// Relies on str::to_lowercase: the result depends on the characters alone.
#[verifier::external_body]
fn lowercase(s: &str) -> (r: String)
    ensures
        r@ == lower_of(s@),
{
    s.to_lowercase()
}

/// The effect whose name is exactly `name`, which is taken to be lower case already.
pub fn effect_from_lowercase(name: &str) -> (r: Option<Effect>)
    ensures
        r == effect_named(name@),
{
    let name = name.to_owned();
    if name == "grayscale".to_owned() {
        Some(Effect::Grayscale)
    } else if name == "edgedetect".to_owned() {
        Some(Effect::EdgeDetect)
    } else if name == "invertcolor".to_owned() {
        Some(Effect::InvertColor)
    } else if name == "floodfill".to_owned() {
        Some(Effect::FloodFill)
    } else {
        None
    }
}

/// Whether `effect` names one of the effects, ignoring case.
pub fn is_supported_effect(effect: &str) -> (r: bool)
    ensures
        r == effect_named(lower_of(effect@)) is Some,
{
    let lowered = lowercase(effect);
    effect_from_lowercase(lowered.as_str()).is_some()
}

/// `after` is what applying `effect` to `before` gives, with `(row, col)` and `color` as the
/// seed and colour of a flood fill.
pub open spec fn applied(effect: Effect, before: Raster, after: Raster, row: int, col: int, color: Rgba) -> bool {
    match effect {
        Effect::Grayscale => after.pixels@ == grayscaled(before.pixels@),
        Effect::EdgeDetect => edge_detected(before, after),
        Effect::InvertColor => after.pixels@ == inverted(before.pixels@),
        Effect::FloodFill => flood_filled(before, after, row, col, color),
    }
}

/// Applies `effect`.
pub fn apply(image: &mut Raster, effect: Effect, row: i32, col: i32, color: Rgba) -> (r: Result<
    (),
    EffectError,
>)
    requires
        old(image).wf(),
    ensures
        final(image).wf(),
        final(image).width == old(image).width,
        final(image).height == old(image).height,
        r is Err <==> effect == Effect::FloodFill && !old(image).in_bounds(row as int, col as int),
        r is Err ==> r == Err::<(), EffectError>(EffectError::OutOfBounds) && final(image).pixels@
            == old(image).pixels@,
        r is Ok ==> applied(effect, *old(image), *final(image), row as int, col as int, color),
{
    match effect {
        Effect::Grayscale => {
            grayscale(image);
            Ok(())
        },
        Effect::EdgeDetect => {
            edge_detect(image);
            Ok(())
        },
        Effect::InvertColor => {
            invert_color(image);
            Ok(())
        },
        Effect::FloodFill => flood_fill(image, row, col, color),
    }
}

/// Applies the effect named `name`, ignoring case. A name that is not one of the effects is
/// refused before the raster is touched.
pub fn apply_effect(image: &mut Raster, name: &str, row: i32, col: i32, color: Rgba) -> (r: Result<
    (),
    EffectError,
>)
    requires
        old(image).wf(),
    ensures
        final(image).wf(),
        final(image).width == old(image).width,
        final(image).height == old(image).height,
        effect_named(lower_of(name@)) is None ==> r == Err::<(), EffectError>(
            EffectError::UnsupportedEffect,
        ) && final(image).pixels@ == old(image).pixels@,
        effect_named(lower_of(name@)) matches Some(e) ==> {
            &&& (r is Err <==> e == Effect::FloodFill && !old(image).in_bounds(row as int, col as int))
            &&& (r is Err ==> r == Err::<(), EffectError>(EffectError::OutOfBounds) && final(image).pixels@
                == old(image).pixels@)
            &&& (r is Ok ==> applied(e, *old(image), *final(image), row as int, col as int, color))
        },
{
    let lowered = lowercase(name);
    match effect_from_lowercase(lowered.as_str()) {
        None => Err(EffectError::UnsupportedEffect),
        Some(effect) => apply(image, effect, row, col, color),
    }
}

} // verus!
