use pathtracer::display::{Display, DisplayIter};

fn count_remaining(mut it: DisplayIter) -> usize {
    let mut n = 0;
    while let Some(_) = it.next() {
        n += 1;
    }
    n
}

#[test]
fn test_iter_len_head_and_tail() {
    let display = Display { x: 12, y: 7 };
    let mut it = DisplayIter::new(display);
    for _ in 0..50 {
        assert_eq!(it.len(), count_remaining(it));
        let _ = it.next();
        assert_eq!(it.len(), count_remaining(it));
        let _ = it.next_back();
    }
}

#[test]
fn test_iter_len_head() {
    let display = Display { x: 12, y: 7 };
    let mut it = DisplayIter::new(display);
    for _ in 0..100 {
        assert_eq!(it.len(), count_remaining(it));
        let _ = it.next();
    }
}

#[test]
fn test_take() {
    let display = Display { x: 5, y: 5 };
    let mut it = DisplayIter::new(display);
    for _ in 0..11 {
        let _ = it.next();
    }
    let mut taken = Vec::new();
    for _ in 0..10 {
        taken.push(it.next().unwrap());
    }
    assert_eq!(
        taken,
        vec![
            (1, 2),
            (2, 2),
            (3, 2),
            (4, 2),
            (0, 3),
            (1, 3),
            (2, 3),
            (3, 3),
            (4, 3),
            (0, 4),
        ]
    );
}

#[test]
fn test_display_size() {
    assert_eq!(Display::new(12, 7).size(), 84);
    assert_eq!(Display::new(1280, 720).size(), 921600);
}

#[test]
fn test_iter_full_walk() {
    let mut it = Display::new(3, 2).iter();
    assert_eq!(it.len(), 6);
    assert_eq!(it.next(), Some((0, 0)));
    assert_eq!(it.next(), Some((1, 0)));
    assert_eq!(it.next(), Some((2, 0)));
    assert_eq!(it.next(), Some((0, 1)));
    assert_eq!(it.next(), Some((1, 1)));
    assert_eq!(it.next(), Some((2, 1)));
    assert_eq!(it.next(), None);
    assert_eq!(it.len(), 0);
}

#[test]
fn test_iter_back_walk() {
    let mut it = Display::new(2, 2).iter();
    assert_eq!(it.next_back(), Some((1, 1)));
    assert_eq!(it.next_back(), Some((0, 1)));
    assert_eq!(it.next_back(), Some((1, 0)));
    assert_eq!(it.next_back(), Some((0, 0)));
    assert_eq!(it.next_back(), None);
    assert_eq!(it.next(), None);
}

#[test]
fn test_iter_meet_in_middle() {
    let mut it = Display::new(3, 1).iter();
    assert_eq!(it.next(), Some((0, 0)));
    assert_eq!(it.next_back(), Some((2, 0)));
    assert_eq!(it.next(), Some((1, 0)));
    assert_eq!(it.next(), None);
    assert_eq!(it.next_back(), None);
}
