use dockpanel::{decode_icon, find_best_icon, resample_icon};

fn stream(triples: &[(u32, u32, u32)]) -> Vec<u32> {
    let mut data: Vec<u32> = Vec::new();
    for &(w, h, fill) in triples {
        data.push(w);
        data.push(h);
        for _ in 0..(w * h) {
            data.push(fill);
        }
    }
    data
}

#[test]
fn scan_empty_stream_yields_none() {
    assert!(find_best_icon(&Vec::new()).is_none());
    assert!(find_best_icon(&vec![5]).is_none());
}

#[test]
fn scan_single_triple() {
    let data = stream(&[(1, 1, 7)]);
    let (w, h, pixels) = find_best_icon(&data).unwrap();
    assert_eq!((w, h), (1, 1));
    assert_eq!(pixels, vec![7]);
}

#[test]
fn scan_selects_maximum_area() {
    let data = stream(&[(1, 1, 5), (2, 2, 6), (1, 2, 7)]);
    let (w, h, pixels) = find_best_icon(&data).unwrap();
    assert_eq!((w, h), (2, 2));
    assert_eq!(pixels, vec![6, 6, 6, 6]);
}

#[test]
fn scan_tie_keeps_first_in_stream_order() {
    let data = stream(&[(2, 2, 1), (2, 2, 2), (4, 1, 3)]);
    let (w, h, pixels) = find_best_icon(&data).unwrap();
    assert_eq!((w, h), (2, 2));
    assert_eq!(pixels, vec![1, 1, 1, 1]);
}

#[test]
fn scan_skips_oversized_dimensions() {
    let mut data: Vec<u32> = vec![257, 1];
    for _ in 0..257 {
        data.push(9);
    }
    data.push(1);
    data.push(1);
    data.push(4);
    let (w, h, pixels) = find_best_icon(&data).unwrap();
    assert_eq!((w, h), (1, 1));
    assert_eq!(pixels, vec![4]);
}

#[test]
fn scan_zero_area_is_never_selected() {
    let data = stream(&[(0, 5, 0), (5, 0, 0)]);
    assert!(find_best_icon(&data).is_none());
}

#[test]
fn truncated_triple_stops_scan_without_using_it() {
    // the second triple claims 25 pixel words but only 3 remain
    let mut data = stream(&[(1, 1, 8)]);
    data.push(5);
    data.push(5);
    data.push(1);
    data.push(2);
    data.push(3);
    let (w, h, pixels) = find_best_icon(&data).unwrap();
    assert_eq!((w, h), (1, 1));
    assert_eq!(pixels, vec![8]);
}

#[test]
fn truncated_first_triple_yields_none() {
    let data = vec![2, 2, 7];
    assert!(find_best_icon(&data).is_none());
}

#[test]
fn truncation_hides_everything_after_it() {
    // after the overrunning triple a perfectly good large triple follows,
    // but the scan must never reach it
    let mut data = stream(&[(1, 1, 8)]);
    data.push(100);
    data.push(100);
    let tail = stream(&[(3, 3, 9)]);
    data.extend_from_slice(&tail);
    let (w, h, pixels) = find_best_icon(&data).unwrap();
    assert_eq!((w, h), (1, 1));
    assert_eq!(pixels, vec![8]);
}

#[test]
fn resample_uniform_source_is_uniform_output() {
    let color: u32 = 0x0012_3456;
    let pixels: Vec<u32> = vec![color; 25];
    let out = resample_icon(5, 5, &pixels);
    assert_eq!(out.len(), 32 * 32 * 4);
    for p in out.chunks(4) {
        assert_eq!(p, &[0x12, 0x34, 0x56, 0xFF]);
    }
}

#[test]
fn resample_forces_alpha_opaque() {
    let pixels: Vec<u32> = vec![0xAA00_0000; 4];
    let out = resample_icon(2, 2, &pixels);
    for p in out.chunks(4) {
        assert_eq!(p, &[0x00, 0x00, 0x00, 0xFF]);
    }
}

#[test]
fn resample_nearest_neighbor_exact_indices() {
    // a 2x1 source: the left half of the raster samples word 0, the
    // right half word 1, since floor(x*2/32) flips at x == 16
    let pixels: Vec<u32> = vec![0x00FF_0000, 0x0000_FF00];
    let out = resample_icon(2, 1, &pixels);
    for y in 0..32usize {
        for x in 0..32usize {
            let at = 4 * (y * 32 + x);
            let expected: [u8; 4] = if x < 16 {
                [0xFF, 0x00, 0x00, 0xFF]
            } else {
                [0x00, 0xFF, 0x00, 0xFF]
            };
            assert_eq!(&out[at..at + 4], &expected);
        }
    }
}

#[test]
fn resample_short_source_defaults_to_transparent_black_base() {
    // a source claiming 2x2 but holding a single word: out-of-range
    // samples fall back to zero, still emitted fully opaque
    let pixels: Vec<u32> = vec![0x00AB_CDEF];
    let out = resample_icon(2, 2, &pixels);
    let first = &out[0..4];
    assert_eq!(first, &[0xAB, 0xCD, 0xEF, 0xFF]);
    let last = &out[out.len() - 4..];
    assert_eq!(last, &[0x00, 0x00, 0x00, 0xFF]);
}

#[test]
fn decode_composes_scan_and_resample() {
    let data = stream(&[(2, 2, 0x0011_2233)]);
    let out = decode_icon(&data).unwrap();
    assert_eq!(out.len(), 4096);
    for p in out.chunks(4) {
        assert_eq!(p, &[0x11, 0x22, 0x33, 0xFF]);
    }
}

#[test]
fn decode_empty_yields_none() {
    assert!(decode_icon(&Vec::new()).is_none());
    assert!(decode_icon(&vec![3, 3]).is_none());
}
