use pathtracer::display::Display;
use pathtracer::render::{chunk_pixels, merge_buffers, plan_chunks};

fn assert_exact_cover(w: usize, h: usize, threads: usize) {
    let chunks = plan_chunks(Display::new(w as u32, h as u32), threads);
    let mut counts = vec![0usize; w * h];
    for c in &chunks {
        for (x, y) in chunk_pixels(*c) {
            counts[y * w + x] += 1;
        }
    }
    for (i, n) in counts.iter().enumerate() {
        assert_eq!(*n, 1, "pixel {} covered {} times", i, n);
    }
}

#[test]
fn test_chunks_cover_small() {
    assert_exact_cover(5, 5, 3);
}

#[test]
fn test_chunks_cover_hd() {
    assert_exact_cover(1280, 720, 16);
}

#[test]
fn test_chunks_cover_odd() {
    assert_exact_cover(7, 3, 4);
    assert_exact_cover(1, 1, 1);
    assert_exact_cover(2, 9, 5);
}

#[test]
fn test_chunk_pixels_order() {
    let px = chunk_pixels(((1, 3), (5, 7)));
    assert_eq!(px, vec![(1, 5), (1, 6), (2, 5), (2, 6)]);
}

#[test]
fn test_merge_disjoint_union() {
    // one buffer set only on chunk A (indices 0..2), the other only on
    // chunk B (indices 3..5)
    let a = vec![Some(10u32), Some(11), Some(12), None, None, None];
    let b = vec![None, None, None, Some(23u32), Some(24), None];
    let merged = merge_buffers(a, b);
    assert_eq!(
        merged,
        vec![Some(10), Some(11), Some(12), Some(23), Some(24), None]
    );
}

#[test]
fn test_merge_keeps_first() {
    let a = vec![Some(1u32), None];
    let b = vec![Some(9u32), Some(2)];
    assert_eq!(merge_buffers(a, b), vec![Some(1), Some(2)]);
}
