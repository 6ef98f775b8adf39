use sepconv::ImageIterator;

#[test]
fn iterator_walks_columns_in_turn() {
    let mut cursor = ImageIterator::new(2, 3);
    let mut seen = Vec::new();
    while let Some(coordinate) = cursor.next() {
        seen.push(coordinate);
    }
    assert_eq!(seen, vec![(0, 0), (0, 1), (0, 2), (1, 0), (1, 1), (1, 2)]);
}

#[test]
fn iterator_visits_every_coordinate_once() {
    let (width, height) = (7u32, 5u32);
    let mut cursor = ImageIterator::new(width, height);
    let mut visits = vec![0u32; (width * height) as usize];
    let mut rank = 0u32;
    while let Some((x, y)) = cursor.next() {
        assert!(x < width && y < height);
        assert_eq!((x, y), (rank / height, rank % height));
        visits[(y * width + x) as usize] += 1;
        rank += 1;
    }
    assert_eq!(rank, width * height);
    assert!(visits.iter().all(|&count| count == 1));
}

#[test]
fn iterator_over_empty_grid_yields_nothing() {
    assert_eq!(ImageIterator::new(0, 0).next(), None);
    assert_eq!(ImageIterator::new(0, 4).next(), None);
    assert_eq!(ImageIterator::new(4, 0).next(), None);
}

#[test]
fn exhausted_iterator_stays_exhausted() {
    let mut cursor = ImageIterator::new(1, 1);
    assert_eq!(cursor.next(), Some((0, 0)));
    for _ in 0..10 {
        assert_eq!(cursor.next(), None);
    }
}

#[test]
fn iterator_handles_largest_dimensions() {
    let mut cursor = ImageIterator::new(u32::MAX, u32::MAX);
    assert_eq!(cursor.next(), Some((0, 0)));
    assert_eq!(cursor.next(), Some((0, 1)));
    let mut tall = ImageIterator::new(u32::MAX, 1);
    assert_eq!(tall.next(), Some((0, 0)));
    assert_eq!(tall.next(), Some((1, 0)));
}
