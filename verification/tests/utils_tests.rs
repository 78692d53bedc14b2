use pathtracer::utils::{cartesian_product, ChunkIter, RangeChunks, Source, VecSource};

fn collect_chunks(mut it: ChunkIter) -> Vec<Vec<usize>> {
    let mut out = Vec::new();
    while let Some(c) = it.next() {
        out.push(c);
    }
    out
}

#[test]
fn test_cartesian_product() {
    let a = vec![1usize, 2, 3];
    let b = vec![4usize, 5, 6];
    let mut product = cartesian_product(VecSource::new(a), b);
    assert_eq!(product.size_hint(), (9, Some(9)));
    assert_eq!(product.next(), Some((1, 4)));
    assert_eq!(product.size_hint(), (8, Some(8)));
    assert_eq!(product.next(), Some((1, 5)));
    assert_eq!(product.size_hint(), (7, Some(7)));
    assert_eq!(product.next(), Some((1, 6)));
    assert_eq!(product.size_hint(), (6, Some(6)));
    assert_eq!(product.next(), Some((2, 4)));
    assert_eq!(product.size_hint(), (5, Some(5)));
    assert_eq!(product.next(), Some((2, 5)));
    assert_eq!(product.size_hint(), (4, Some(4)));
    assert_eq!(product.next(), Some((2, 6)));
    assert_eq!(product.size_hint(), (3, Some(3)));
    assert_eq!(product.next(), Some((3, 4)));
    assert_eq!(product.size_hint(), (2, Some(2)));
    assert_eq!(product.next(), Some((3, 5)));
    assert_eq!(product.size_hint(), (1, Some(1)));
    assert_eq!(product.next(), Some((3, 6)));
    assert_eq!(product.size_hint(), (0, Some(0)));
    assert_eq!(product.next(), None);
}

#[test]
fn test_ranges() {
    let a_iter = ChunkIter::new(0..9, 3);
    let b_chunks = collect_chunks(ChunkIter::new(0..10, 3));
    let mut product = cartesian_product(a_iter, b_chunks);
    assert_eq!(product.next(), Some((vec![0, 1, 2], vec![0, 1, 2])));
    assert_eq!(product.next(), Some((vec![0, 1, 2], vec![3, 4, 5])));
    assert_eq!(product.next(), Some((vec![0, 1, 2], vec![6, 7, 8])));
    assert_eq!(product.next(), Some((vec![0, 1, 2], vec![9])));
    assert_eq!(product.next(), Some((vec![3, 4, 5], vec![0, 1, 2])));
    assert_eq!(product.next(), Some((vec![3, 4, 5], vec![3, 4, 5])));
    assert_eq!(product.next(), Some((vec![3, 4, 5], vec![6, 7, 8])));
    assert_eq!(product.next(), Some((vec![3, 4, 5], vec![9])));
    assert_eq!(product.next(), Some((vec![6, 7, 8], vec![0, 1, 2])));
    assert_eq!(product.next(), Some((vec![6, 7, 8], vec![3, 4, 5])));
    assert_eq!(product.next(), Some((vec![6, 7, 8], vec![6, 7, 8])));
    assert_eq!(product.next(), Some((vec![6, 7, 8], vec![9])));
}

#[test]
fn test_empty_range() {
    let mut iter = ChunkIter::new(0..0, 3);
    assert_eq!(iter.next(), None);
}

#[test]
fn test_unbounded_range() {
    let a_iter = ChunkIter::new(0..usize::MAX, 3);
    let b_chunks = collect_chunks(ChunkIter::new(0..10, 3));
    let mut product = cartesian_product(a_iter, b_chunks);
    assert_eq!(product.next(), Some((vec![0, 1, 2], vec![0, 1, 2])));
    assert_eq!(product.next(), Some((vec![0, 1, 2], vec![3, 4, 5])));
    assert_eq!(product.next(), Some((vec![0, 1, 2], vec![6, 7, 8])));
    assert_eq!(product.next(), Some((vec![0, 1, 2], vec![9])));
    assert_eq!(product.next(), Some((vec![3, 4, 5], vec![0, 1, 2])));
    assert_eq!(product.next(), Some((vec![3, 4, 5], vec![3, 4, 5])));
    assert_eq!(product.next(), Some((vec![3, 4, 5], vec![6, 7, 8])));
    assert_eq!(product.next(), Some((vec![3, 4, 5], vec![9])));
    assert_eq!(product.next(), Some((vec![6, 7, 8], vec![0, 1, 2])));
    assert_eq!(product.next(), Some((vec![6, 7, 8], vec![3, 4, 5])));
    assert_eq!(product.next(), Some((vec![6, 7, 8], vec![6, 7, 8])));
    assert_eq!(product.next(), Some((vec![6, 7, 8], vec![9])));
    assert_eq!(product.next().unwrap().0, vec![9, 10, 11]);
}

#[test]
fn test_range_chunks() {
    let mut chunks = RangeChunks::new(0..10, 3);
    assert_eq!(chunks.size_hint(), (4, Some(4)));
    assert_eq!(chunks.next(), Some(0..3));
    assert_eq!(chunks.size_hint(), (3, Some(3)));
    assert_eq!(chunks.next(), Some(3..6));
    assert_eq!(chunks.size_hint(), (2, Some(2)));
    assert_eq!(chunks.next(), Some(6..9));
    assert_eq!(chunks.size_hint(), (1, Some(1)));
    assert_eq!(chunks.next(), Some(9..10));
    assert_eq!(chunks.size_hint(), (0, Some(0)));
    assert_eq!(chunks.next(), None);
}

#[test]
fn test_empty_b_side() {
    let a = vec![1usize, 2, 3];
    let b: Vec<usize> = Vec::new();
    let mut product = cartesian_product(VecSource::new(a), b);
    assert_eq!(product.size_hint(), (0, Some(0)));
    assert_eq!(product.next(), None);
}

#[test]
fn test_chunk_iter_sizes() {
    let mut it = ChunkIter::new(2..7, 2);
    assert_eq!(it.size_hint(), (3, Some(3)));
    assert_eq!(it.next(), Some(vec![2, 3]));
    assert_eq!(it.next(), Some(vec![4, 5]));
    assert_eq!(it.next(), Some(vec![6]));
    assert_eq!(it.next(), None);
    assert_eq!(it.size_hint(), (0, Some(0)));
}
