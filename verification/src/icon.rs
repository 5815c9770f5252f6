//! Icon decoder: scans the self-describing icon property payload (a flat
//! sequence of 32-bit words encoding concatenated `(width, height, pixels)`
//! triples with no count or terminator), selects the largest candidate image
//! within bounds, and resamples it to the fixed square raster by
//! nearest-neighbor sampling.

use vstd::prelude::*;
use crate::ICON_SIZE;

verus! {

/// Largest source dimension (in pixels) accepted for a candidate image.
pub const MAX_ICON_DIM: u32 = 256;

/// Area of the current best candidate, zero when none has been found yet.
pub open spec fn spec_best_area(best: Option<(int, int, int)>) -> int {
    match best {
        None => 0,
        Some((w, h, _)) => w * h,
    }
}

/// Walk of the icon stream from `off`, carrying the best candidate seen so
/// far as `(width, height, first pixel offset)`. At each step the next two
/// words give a claimed width and height; if the claimed pixel data would
/// run past the end of the stream the walk stops and the tail is discarded.
/// A candidate replaces the best only when both dimensions are within
/// bounds and its area strictly exceeds the best area, so ties keep the
/// earlier image.
pub open spec fn spec_scan(data: Seq<u32>, off: int, best: Option<(int, int, int)>) -> Option<
    (int, int, int),
>
    decreases data.len() - off,
{
    if off < 0 || off + 1 >= data.len() {
        best
    } else {
        let w = data[off] as int;
        let h = data[off + 1] as int;
        let area = w * h;
        let req = off + 2 + area;
        if req > data.len() {
            best
        } else if w <= MAX_ICON_DIM && h <= MAX_ICON_DIM && area > spec_best_area(best) {
            spec_scan(data, req, Some((w, h, off + 2)))
        } else {
            spec_scan(data, req, best)
        }
    }
}

/// The best image of the whole stream: the first triple of maximal area
/// among those with both dimensions within bounds, or `None` when the
/// stream holds no such triple.
pub open spec fn spec_best_icon(data: Seq<u32>) -> Option<(int, int, int)> {
    spec_scan(data, 0, None)
}

/// A candidate is well formed when its dimensions are positive and within
/// bounds and its pixel words lie inside the stream.
pub open spec fn spec_candidate_wf(data: Seq<u32>, best: Option<(int, int, int)>) -> bool {
    match best {
        None => true,
        Some((w, h, s)) => 1 <= w <= MAX_ICON_DIM && 1 <= h <= MAX_ICON_DIM && 2 <= s && s + w * h
            <= data.len(),
    }
}

/// Copies `count` words of `data` starting at `start` into a fresh vector.
fn copy_words(data: &Vec<u32>, start: usize, count: usize) -> (r: Vec<u32>)
    requires
        start + count <= data.len(),
    ensures
        r@ == data@.subrange(start as int, start as int + count as int),
{
    let mut r: Vec<u32> = Vec::new();
    let mut i: usize = 0;
    while i < count
        invariant
            start + count <= data.len(),
            i <= count,
            r@ == data@.subrange(start as int, start as int + i as int),
        decreases count - i,
    {
        r.push(data[start + i]);
        assert(r@ =~= data@.subrange(start as int, start as int + (i + 1) as int));
        i = i + 1;
    }
    r
}

/// Ghost image of the running exec state as a scan candidate.
pub open spec fn spec_of_best(best: Option<(usize, usize, usize)>) -> Option<(int, int, int)> {
    match best {
        None => None,
        Some((w, h, s)) => Some((w as int, h as int, s as int)),
    }
}

/// Scans the icon stream and returns the dimensions and pixel words of the
/// best image: the first triple of maximal `width * height` among those
/// with `width <= 256` and `height <= 256`. A triple whose claimed pixel
/// data exceeds the remaining stream ends the scan; it and everything after
/// it are ignored. Returns `None` when no triple qualifies.
pub fn find_best_icon(data: &Vec<u32>) -> (r: Option<(usize, usize, Vec<u32>)>)
    ensures
        r is None <==> spec_best_icon(data@) is None,
        r matches Some((w, h, pixels)) ==> spec_best_icon(data@) matches Some((sw, sh, ss))
            && w as int == sw && h as int == sh && pixels@ == data@.subrange(ss, ss + sw * sh)
            && 1 <= sw <= MAX_ICON_DIM && 1 <= sh <= MAX_ICON_DIM,
{
    let n = data.len();
    let mut best: Option<(usize, usize, usize)> = None;
    let mut best_area: usize = 0;
    let mut off: usize = 0;

    while n - off > 1
        invariant
            n == data.len(),
            off <= n,
            spec_scan(data@, 0, None) == spec_scan(data@, off as int, spec_of_best(best)),
            best_area as int == spec_best_area(spec_of_best(best)),
            spec_candidate_wf(data@, spec_of_best(best)),
        decreases n - off,
    {
        let w = data[off] as usize;
        let h = data[off + 1] as usize;
        let wu: u64 = w as u64;
        let hu: u64 = h as u64;
        proof {
            assert((wu as int) * (hu as int) <= 0xFFFF_FFFF * 0xFFFF_FFFF) by (nonlinear_arith)
                requires
                    0 <= wu <= 0xFFFF_FFFF,
                    0 <= hu <= 0xFFFF_FFFF,
            ;
        }
        let area64 = wu * hu;
        let remaining = (n - off - 2) as u64;
        if area64 > remaining {
            proof {
                assert(spec_scan(data@, off as int, spec_of_best(best)) == spec_of_best(best));
            }
            off = n;
        } else {
            let area = area64 as usize;
            let req = off + 2 + area;
            let ghost prev = spec_of_best(best);
            if w <= MAX_ICON_DIM as usize && h <= MAX_ICON_DIM as usize && area > best_area {
                best = Some((w, h, off + 2));
                best_area = area;
                proof {
                    assert(w * h > 0);
                    assert(w >= 1 && h >= 1) by (nonlinear_arith)
                        requires
                            w >= 0,
                            h >= 0,
                            w * h > 0,
                    ;
                    assert(spec_scan(data@, off as int, prev) == spec_scan(
                        data@,
                        req as int,
                        spec_of_best(best),
                    ));
                }
            } else {
                proof {
                    assert(spec_scan(data@, off as int, prev) == spec_scan(
                        data@,
                        req as int,
                        prev,
                    ));
                }
            }
            off = req;
        }
    }
    proof {
        assert(spec_scan(data@, off as int, spec_of_best(best)) == spec_of_best(best));
    }
    match best {
        None => None,
        Some((w, h, s)) => {
            let pixels = copy_words(data, s, w * h);
            Some((w, h, pixels))
        },
    }
}

/// Index of the source pixel sampled for destination pixel `(dx, dy)` of a
/// `w` by `h` source, by nearest-neighbor sampling.
pub open spec fn spec_source_index(w: int, h: int, dx: int, dy: int) -> int {
    (dy * h / (ICON_SIZE as int)) * w + dx * w / (ICON_SIZE as int)
}

/// The source word sampled for destination pixel `(dx, dy)`; an index
/// outside the pixel words (possible only for a source inconsistent with
/// its own bounds) defaults to transparent black.
pub open spec fn spec_sample(pixels: Seq<u32>, w: int, h: int, dx: int, dy: int) -> u32 {
    let idx = spec_source_index(w, h, dx, dy);
    if 0 <= idx < pixels.len() {
        pixels[idx]
    } else {
        0u32
    }
}

/// The four raster bytes for one packed source word: red, green and blue
/// channels unpacked in that order, with the alpha byte forced opaque.
pub open spec fn spec_channel_bytes(p: u32) -> Seq<u8> {
    seq![
        ((p >> 16) & 0xFF) as u8,
        ((p >> 8) & 0xFF) as u8,
        (p & 0xFF) as u8,
        0xFFu8,
    ]
}

/// The four bytes of destination pixel `(dx, dy)` in a raster laid out in
/// row-major order, four bytes per pixel.
pub open spec fn spec_raster_pixel(out: Seq<u8>, dx: int, dy: int) -> Seq<u8> {
    out.subrange(4 * (dy * (ICON_SIZE as int) + dx), 4 * (dy * (ICON_SIZE as int) + dx) + 4)
}

/// Resamples a `width` by `height` source image to the fixed square raster
/// by nearest-neighbor sampling: destination pixel `(dx, dy)` takes the
/// source word at index `floor(dy*height/ICON_SIZE)*width +
/// floor(dx*width/ICON_SIZE)`, unpacked into channel bytes with alpha
/// forced opaque.
pub fn resample_icon(width: usize, height: usize, pixels: &Vec<u32>) -> (out: Vec<u8>)
    requires
        1 <= width <= MAX_ICON_DIM,
        1 <= height <= MAX_ICON_DIM,
    ensures
        out@.len() == 4 * (ICON_SIZE as int) * (ICON_SIZE as int),
        forall|dx: int, dy: int|
            0 <= dx < ICON_SIZE && 0 <= dy < ICON_SIZE ==> #[trigger] spec_raster_pixel(
                out@,
                dx,
                dy,
            ) == spec_channel_bytes(spec_sample(pixels@, width as int, height as int, dx, dy)),
{
    let side = ICON_SIZE as usize;
    let mut out: Vec<u8> = Vec::new();
    let mut dy: usize = 0;
    while dy < side
        invariant
            side == ICON_SIZE,
            1 <= width <= MAX_ICON_DIM,
            1 <= height <= MAX_ICON_DIM,
            dy <= side,
            out@.len() == 4 * (dy as int) * (side as int),
            forall|px: int, py: int|
                0 <= px < side && 0 <= py < dy ==> #[trigger] spec_raster_pixel(out@, px, py)
                    == spec_channel_bytes(
                    spec_sample(pixels@, width as int, height as int, px, py),
                ),
        decreases side - dy,
    {
        let mut dx: usize = 0;
        while dx < side
            invariant
                side == ICON_SIZE,
                1 <= width <= MAX_ICON_DIM,
                1 <= height <= MAX_ICON_DIM,
                dy < side,
                dx <= side,
                out@.len() == 4 * (dy as int) * (side as int) + 4 * (dx as int),
                forall|px: int, py: int|
                    0 <= px < side && 0 <= py < dy ==> #[trigger] spec_raster_pixel(out@, px, py)
                        == spec_channel_bytes(
                        spec_sample(pixels@, width as int, height as int, px, py),
                    ),
                forall|px: int|
                    0 <= px < dx ==> #[trigger] spec_raster_pixel(out@, px, dy as int)
                        == spec_channel_bytes(
                        spec_sample(pixels@, width as int, height as int, px, dy as int),
                    ),
            decreases side - dx,
        {
            let ghost out_before = out@;
            proof {
                assert((dx as int) * (width as int) <= 31 * 256) by (nonlinear_arith)
                    requires
                        0 <= dx <= 31,
                        0 <= width <= 256,
                ;
                assert((dy as int) * (height as int) <= 31 * 256) by (nonlinear_arith)
                    requires
                        0 <= dy <= 31,
                        0 <= height <= 256,
                ;
            }
            let sx = dx * width / side;
            let sy = dy * height / side;
            proof {
                assert((sy as int) * (width as int) <= 248 * 256) by (nonlinear_arith)
                    requires
                        0 <= sy <= 248,
                        0 <= width <= 256,
                ;
            }
            let idx = sy * width + sx;
            let p: u32 = if idx < pixels.len() {
                pixels[idx]
            } else {
                0u32
            };
            proof {
                assert(((p >> 16) & 0xFF) < 256 && ((p >> 8) & 0xFF) < 256 && (p & 0xFF) < 256)
                    by (bit_vector);
            }
            out.push(((p >> 16) & 0xFF) as u8);
            out.push(((p >> 8) & 0xFF) as u8);
            out.push((p & 0xFF) as u8);
            out.push(0xFF);
            proof {
                assert(sx as int == (dx as int) * (width as int) / (ICON_SIZE as int));
                assert(sy as int == (dy as int) * (height as int) / (ICON_SIZE as int));
                assert(idx as int == spec_source_index(
                    width as int,
                    height as int,
                    dx as int,
                    dy as int,
                ));
                assert(p == spec_sample(pixels@, width as int, height as int, dx as int, dy as int));
                assert(spec_raster_pixel(out@, dx as int, dy as int) =~= spec_channel_bytes(p));
                assert(forall|px: int, py: int|
                    0 <= px < side && 0 <= py < dy ==> #[trigger] spec_raster_pixel(out@, px, py)
                        =~= spec_raster_pixel(out_before, px, py));
                assert(forall|px: int|
                    0 <= px < dx ==> #[trigger] spec_raster_pixel(out@, px, dy as int)
                        =~= spec_raster_pixel(out_before, px, dy as int));
            }
            dx = dx + 1;
        }
        dy = dy + 1;
    }
    out
}

/// Nearest-neighbor sampling never leaves a source image that is
/// consistent with its own bounds: for destination coordinates within the
/// raster, the sampled index lies inside the `w * h` pixel words.
pub proof fn lemma_source_index_in_range(w: int, h: int, dx: int, dy: int)
    requires
        1 <= w <= MAX_ICON_DIM,
        1 <= h <= MAX_ICON_DIM,
        0 <= dx < ICON_SIZE,
        0 <= dy < ICON_SIZE,
    ensures
        0 <= spec_source_index(w, h, dx, dy) < w * h,
{
    let side = ICON_SIZE as int;
    let sx = dx * w / side;
    let sy = dy * h / side;
    assert(0 <= dx * w && dx * w < side * w) by (nonlinear_arith)
        requires
            0 <= dx < side,
            1 <= w,
            0 < side,
    ;
    assert(0 <= dy * h && dy * h < side * h) by (nonlinear_arith)
        requires
            0 <= dy < side,
            1 <= h,
            0 < side,
    ;
    assert(0 <= sx < w) by (nonlinear_arith)
        requires
            0 <= dx * w < side * w,
            sx == dx * w / side,
            0 < side,
            0 < w,
    ;
    assert(0 <= sy < h) by (nonlinear_arith)
        requires
            0 <= dy * h < side * h,
            sy == dy * h / side,
            0 < side,
            0 < h,
    ;
    assert(0 <= sy * w + sx < w * h) by (nonlinear_arith)
        requires
            0 <= sx < w,
            0 <= sy < h,
    ;
}

/// Resampling a uniform single-color source that carries exactly its own
/// `w * h` pixel words samples that same color at every destination pixel:
/// nearest-neighbor sampling blends nothing in.
pub proof fn lemma_uniform_source_samples_uniform(
    pixels: Seq<u32>,
    w: int,
    h: int,
    c: u32,
    dx: int,
    dy: int,
)
    requires
        1 <= w <= MAX_ICON_DIM,
        1 <= h <= MAX_ICON_DIM,
        pixels.len() == w * h,
        forall|i: int| 0 <= i < pixels.len() ==> pixels[i] == c,
        0 <= dx < ICON_SIZE,
        0 <= dy < ICON_SIZE,
    ensures
        spec_sample(pixels, w, h, dx, dy) == c,
{
    lemma_source_index_in_range(w, h, dx, dy);
}

/// Claimed width and height of one image triple, as a pair of words.
pub open spec fn spec_triple_area(t: (u32, u32)) -> int {
    (t.0 as int) * (t.1 as int)
}

/// A triple qualifies for selection when both dimensions are within
/// bounds and it has at least one pixel.
pub open spec fn spec_triple_ok(t: (u32, u32)) -> bool {
    t.0 <= MAX_ICON_DIM && t.1 <= MAX_ICON_DIM && spec_triple_area(t) >= 1
}

/// The stream is truncated at `off`: too few words remain for a header,
/// or the header's claimed pixel data would run past the end.
pub open spec fn spec_truncated_at(data: Seq<u32>, off: int) -> bool {
    off + 1 >= data.len() || off + 2 + (data[off] as int) * (data[off + 1] as int) > data.len()
}

/// The words from `off` onward parse as the triples `ts` in order, each
/// header followed by exactly its claimed pixel words, and after the last
/// triple the stream is truncated (in particular, at its exact end).
pub open spec fn spec_stream_to(ts: Seq<(u32, u32)>, data: Seq<u32>, off: int) -> bool
    decreases ts.len(),
{
    if ts.len() == 0 {
        spec_truncated_at(data, off)
    } else {
        &&& 0 <= off
        &&& off + 2 + spec_triple_area(ts[0]) <= data.len()
        &&& data[off] == ts[0].0
        &&& data[off + 1] == ts[0].1
        &&& spec_stream_to(ts.drop_first(), data, off + 2 + spec_triple_area(ts[0]))
    }
}

/// Word offset of triple `j`'s header when the first triple starts at
/// `off`.
pub open spec fn spec_triple_off(ts: Seq<(u32, u32)>, off: int, j: int) -> int
    decreases j,
{
    if j <= 0 {
        off
    } else {
        spec_triple_off(ts, off, j - 1) + 2 + spec_triple_area(ts[j - 1])
    }
}

/// Triple offsets relative to a shifted start: dropping the first triple
/// moves every later offset by that triple's extent.
proof fn lemma_triple_off_shift(ts: Seq<(u32, u32)>, off: int, j: int)
    requires
        1 <= j <= ts.len(),
    ensures
        spec_triple_off(ts, off, j) == spec_triple_off(
            ts.drop_first(),
            off + 2 + spec_triple_area(ts[0]),
            j - 1,
        ),
    decreases j,
{
    if j == 1 {
        assert(spec_triple_off(ts, off, 1) == spec_triple_off(ts, off, 0) + 2 + spec_triple_area(
            ts[0],
        ));
        assert(spec_triple_off(ts.drop_first(), off + 2 + spec_triple_area(ts[0]), 0) == off + 2
            + spec_triple_area(ts[0]));
    } else {
        lemma_triple_off_shift(ts, off, j - 1);
        assert(ts.drop_first()[j - 2] == ts[j - 1]);
        assert(spec_triple_off(ts, off, j) == spec_triple_off(ts, off, j - 1) + 2
            + spec_triple_area(ts[j - 1]));
        let shifted = off + 2 + spec_triple_area(ts[0]);
        assert(spec_triple_off(ts.drop_first(), shifted, j - 1) == spec_triple_off(
            ts.drop_first(),
            shifted,
            j - 2,
        ) + 2 + spec_triple_area(ts.drop_first()[j - 2]));
    }
}

/// The walk of the raw words visits exactly the parsed triples: on a
/// stream that parses as `ts` from `off`, the word-level scan computes
/// the same selection as the triple-level walk, so the truncated tail
/// (and everything after it) never influences the result.
pub proof fn lemma_scan_parses(
    ts: Seq<(u32, u32)>,
    data: Seq<u32>,
    off: int,
    best: Option<(int, int, int)>,
)
    requires
        spec_stream_to(ts, data, off),
        0 <= off,
    ensures
        spec_scan(data, off, best) == spec_pick(ts, off, best),
    decreases ts.len(),
{
    if ts.len() == 0 {
        if off + 1 >= data.len() {
        } else {
            assert(spec_scan(data, off, best) == best);
        }
    } else {
        let w = ts[0].0 as int;
        let h = ts[0].1 as int;
        let area = spec_triple_area(ts[0]);
        let next = off + 2 + area;
        assert(area >= 0) by (nonlinear_arith)
            requires
                w >= 0,
                h >= 0,
                area == w * h,
        ;
        lemma_scan_parses(ts.drop_first(), data, next, Some((w, h, off + 2)));
        lemma_scan_parses(ts.drop_first(), data, next, best);
    }
}

/// The triple-level walk: the same selection rule as the word-level scan,
/// expressed over parsed triples.
pub open spec fn spec_pick(
    ts: Seq<(u32, u32)>,
    off: int,
    best: Option<(int, int, int)>,
) -> Option<(int, int, int)>
    decreases ts.len(),
{
    if ts.len() == 0 {
        best
    } else {
        let w = ts[0].0 as int;
        let h = ts[0].1 as int;
        let area = spec_triple_area(ts[0]);
        let next = off + 2 + area;
        if w <= MAX_ICON_DIM && h <= MAX_ICON_DIM && area > spec_best_area(best) {
            spec_pick(ts.drop_first(), next, Some((w, h, off + 2)))
        } else {
            spec_pick(ts.drop_first(), next, best)
        }
    }
}

/// What it means for triple `j` to be the walk's selection, starting
/// from a prior candidate `best`: it qualifies, beats the candidate, the
/// walk returns it with its position in the stream, no qualifying triple
/// has a larger area, and every earlier qualifying triple has a strictly
/// smaller one — a tie keeps the earliest.
pub open spec fn spec_pick_witness(
    ts: Seq<(u32, u32)>,
    off: int,
    best: Option<(int, int, int)>,
    j: int,
) -> bool {
    &&& 0 <= j < ts.len()
    &&& spec_triple_ok(ts[j])
    &&& spec_triple_area(ts[j]) > spec_best_area(best)
    &&& spec_pick(ts, off, best) == Some(
        (ts[j].0 as int, ts[j].1 as int, spec_triple_off(ts, off, j) + 2),
    )
    &&& forall|k: int|
        0 <= k < ts.len() && spec_triple_ok(#[trigger] ts[k]) ==> spec_triple_area(ts[k])
            <= spec_triple_area(ts[j])
    &&& forall|k: int|
        0 <= k < j && spec_triple_ok(#[trigger] ts[k]) ==> spec_triple_area(ts[k])
            < spec_triple_area(ts[j])
}

/// The selection law of the triple-level walk: either no qualifying
/// triple beats the prior candidate and the walk keeps it, or the walk
/// returns the first qualifying triple of maximal area.
proof fn lemma_pick_max(ts: Seq<(u32, u32)>, off: int, best: Option<(int, int, int)>)
    requires
        0 <= spec_best_area(best),
    ensures
        (forall|k: int|
            0 <= k < ts.len() && spec_triple_ok(#[trigger] ts[k]) ==> spec_triple_area(ts[k])
                <= spec_best_area(best)) ==> spec_pick(ts, off, best) == best,
        (exists|k: int|
            0 <= k < ts.len() && spec_triple_ok(#[trigger] ts[k]) && spec_triple_area(ts[k])
                > spec_best_area(best)) ==> exists|j: int| spec_pick_witness(ts, off, best, j),
    decreases ts.len(),
{
    if ts.len() == 0 {
    } else {
        let rest = ts.drop_first();
        let t0 = ts[0];
        let w = t0.0 as int;
        let h = t0.1 as int;
        let a0 = spec_triple_area(t0);
        let next = off + 2 + a0;
        assert(a0 >= 0) by (nonlinear_arith)
            requires
                w >= 0,
                h >= 0,
                a0 == w * h,
        ;
        assert(forall|k: int| 0 <= k < rest.len() ==> rest[k] == ts[k + 1]);
        if w <= MAX_ICON_DIM && h <= MAX_ICON_DIM && a0 > spec_best_area(best) {
            let nbest = Some((w, h, off + 2));
            assert(spec_pick(ts, off, best) == spec_pick(rest, next, nbest));
            assert(spec_best_area(nbest) == a0);
            assert(spec_triple_ok(t0));
            lemma_pick_max(rest, next, nbest);
            if forall|k: int|
                0 <= k < rest.len() && spec_triple_ok(#[trigger] rest[k]) ==> spec_triple_area(
                    rest[k],
                ) <= a0 {
                assert(spec_pick(rest, next, nbest) == nbest);
                assert(spec_triple_off(ts, off, 0) == off);
                assert(spec_pick_witness(ts, off, best, 0)) by {
                    assert(forall|k: int|
                        1 <= k < ts.len() && spec_triple_ok(#[trigger] ts[k])
                            ==> spec_triple_area(ts[k]) <= a0) by {
                        assert(forall|k: int| 1 <= k < ts.len() ==> ts[k] == rest[k - 1]);
                    }
                }
                assert(exists|j: int| spec_pick_witness(ts, off, best, j));
            } else {
                let kw = choose|k: int|
                    0 <= k < rest.len() && spec_triple_ok(#[trigger] rest[k])
                        && spec_triple_area(rest[k]) > a0;
                assert(exists|k: int|
                    0 <= k < rest.len() && spec_triple_ok(#[trigger] rest[k])
                        && spec_triple_area(rest[k]) > spec_best_area(nbest));
                let jr = choose|j: int| spec_pick_witness(rest, next, nbest, j);
                lemma_triple_off_shift(ts, off, jr + 1);
                assert(spec_pick_witness(ts, off, best, jr + 1)) by {
                    assert(ts[jr + 1] == rest[jr]);
                    assert(spec_triple_area(ts[jr + 1]) > a0 > spec_best_area(best));
                    assert(forall|k: int|
                        0 <= k < ts.len() && spec_triple_ok(#[trigger] ts[k])
                            ==> spec_triple_area(ts[k]) <= spec_triple_area(ts[jr + 1])) by {
                        assert(forall|k: int| 1 <= k < ts.len() ==> ts[k] == rest[k - 1]);
                    }
                    assert(forall|k: int|
                        0 <= k < jr + 1 && spec_triple_ok(#[trigger] ts[k])
                            ==> spec_triple_area(ts[k]) < spec_triple_area(ts[jr + 1])) by {
                        assert(forall|k: int| 1 <= k < ts.len() ==> ts[k] == rest[k - 1]);
                    }
                }
                assert(exists|j: int| spec_pick_witness(ts, off, best, j));
            }
        } else {
            assert(spec_pick(ts, off, best) == spec_pick(rest, next, best));
            lemma_pick_max(rest, next, best);
            if exists|k: int|
                0 <= k < ts.len() && spec_triple_ok(#[trigger] ts[k]) && spec_triple_area(ts[k])
                    > spec_best_area(best) {
                let kw = choose|k: int|
                    0 <= k < ts.len() && spec_triple_ok(#[trigger] ts[k]) && spec_triple_area(
                        ts[k],
                    ) > spec_best_area(best);
                assert(kw >= 1) by {
                    if kw == 0 {
                        assert(spec_triple_area(t0) >= 1);
                    }
                }
                assert(rest[kw - 1] == ts[kw]);
                assert(exists|k: int|
                    0 <= k < rest.len() && spec_triple_ok(#[trigger] rest[k])
                        && spec_triple_area(rest[k]) > spec_best_area(best));
                let jr = choose|j: int| spec_pick_witness(rest, next, best, j);
                lemma_triple_off_shift(ts, off, jr + 1);
                assert(spec_pick_witness(ts, off, best, jr + 1)) by {
                    assert(ts[jr + 1] == rest[jr]);
                    assert(forall|k: int|
                        0 <= k < ts.len() && spec_triple_ok(#[trigger] ts[k])
                            ==> spec_triple_area(ts[k]) <= spec_triple_area(ts[jr + 1])) by {
                        assert(forall|k: int| 1 <= k < ts.len() ==> ts[k] == rest[k - 1]);
                        if spec_triple_ok(t0) {
                            assert(spec_triple_area(t0) <= spec_best_area(best));
                        }
                    }
                    assert(forall|k: int|
                        0 <= k < jr + 1 && spec_triple_ok(#[trigger] ts[k])
                            ==> spec_triple_area(ts[k]) < spec_triple_area(ts[jr + 1])) by {
                        assert(forall|k: int| 1 <= k < ts.len() ==> ts[k] == rest[k - 1]);
                        if spec_triple_ok(t0) {
                            assert(spec_triple_area(t0) <= spec_best_area(best));
                        }
                    }
                }
                assert(exists|j: int| spec_pick_witness(ts, off, best, j));
            }
        }
    }
}

/// Best-icon selection law: on a stream that parses as the triples `ts`
/// (exactly, or followed by a truncated tail, which is ignored), the
/// decoder finds no image exactly when no triple has both dimensions
/// within bounds and at least one pixel; otherwise it selects the first
/// qualifying triple of maximal area, ties resolving to the earliest in
/// stream order.
pub proof fn lemma_best_icon_selection(ts: Seq<(u32, u32)>, data: Seq<u32>)
    requires
        spec_stream_to(ts, data, 0),
    ensures
        spec_best_icon(data) == spec_pick(ts, 0, None),
        (spec_best_icon(data) is None) <==> (forall|k: int|
            0 <= k < ts.len() ==> !spec_triple_ok(#[trigger] ts[k])),
        (exists|k: int| 0 <= k < ts.len() && spec_triple_ok(#[trigger] ts[k])) ==> exists|j: int|
            spec_pick_witness(ts, 0, None, j),
{
    lemma_scan_parses(ts, data, 0, None);
    lemma_pick_max(ts, 0, None);
    if forall|k: int| 0 <= k < ts.len() ==> !spec_triple_ok(#[trigger] ts[k]) {
        assert(forall|k: int|
            0 <= k < ts.len() && spec_triple_ok(#[trigger] ts[k]) ==> spec_triple_area(ts[k])
                <= 0);
        assert(spec_pick(ts, 0, None) == None::<(int, int, int)>);
    } else {
        let kw = choose|k: int| 0 <= k < ts.len() && spec_triple_ok(#[trigger] ts[k]);
        assert(spec_triple_area(ts[kw]) > 0);
        assert(exists|k: int|
            0 <= k < ts.len() && spec_triple_ok(#[trigger] ts[k]) && spec_triple_area(ts[k])
                > spec_best_area(None::<(int, int, int)>));
        let j = choose|j: int| spec_pick_witness(ts, 0, None, j);
        assert(spec_pick(ts, 0, None) is Some);
    }
}

/// Resample correctness for a uniform source: a raster produced from a
/// single-color square source carrying exactly its own pixel words is
/// uniform in that same color — nearest-neighbor sampling blends nothing
/// in, every destination pixel holds the source color's channel bytes.
pub proof fn lemma_resample_uniform_raster(
    out: Seq<u8>,
    pixels: Seq<u32>,
    n: int,
    c: u32,
)
    requires
        1 <= n <= MAX_ICON_DIM,
        pixels.len() == n * n,
        forall|i: int| 0 <= i < pixels.len() ==> pixels[i] == c,
        forall|dx: int, dy: int|
            0 <= dx < ICON_SIZE && 0 <= dy < ICON_SIZE ==> #[trigger] spec_raster_pixel(
                out,
                dx,
                dy,
            ) == spec_channel_bytes(spec_sample(pixels, n, n, dx, dy)),
    ensures
        forall|dx: int, dy: int|
            0 <= dx < ICON_SIZE && 0 <= dy < ICON_SIZE ==> #[trigger] spec_raster_pixel(
                out,
                dx,
                dy,
            ) == spec_channel_bytes(c),
{
    assert forall|dx: int, dy: int|
        0 <= dx < ICON_SIZE && 0 <= dy < ICON_SIZE implies #[trigger] spec_raster_pixel(
        out,
        dx,
        dy,
    ) == spec_channel_bytes(c) by {
        lemma_uniform_source_samples_uniform(pixels, n, n, c, dx, dy);
    }
}

/// Decodes the raw icon property payload into the fixed-size raster: the
/// best image of the stream, resampled. Yields `None` exactly when the
/// stream holds no image with both dimensions within bounds.
pub fn decode_icon(data: &Vec<u32>) -> (r: Option<Vec<u8>>)
    ensures
        r is Some <==> spec_best_icon(data@) is Some,
        r matches Some(out) ==> spec_best_icon(data@) matches Some((w, h, s)) && out@.len() == 4
            * (ICON_SIZE as int) * (ICON_SIZE as int) && forall|dx: int, dy: int|
            0 <= dx < ICON_SIZE && 0 <= dy < ICON_SIZE ==> #[trigger] spec_raster_pixel(
                out@,
                dx,
                dy,
            ) == spec_channel_bytes(
                spec_sample(data@.subrange(s, s + w * h), w, h, dx, dy),
            ),
{
    match find_best_icon(data) {
        None => None,
        Some((w, h, pixels)) => Some(resample_icon(w, h, &pixels)),
    }
}

} // verus!

