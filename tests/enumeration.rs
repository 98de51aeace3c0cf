use infinite_craft::SetEnumeration;

#[test]
fn count_fixed_polyominos() {
    let n = 6;
    let width = n * 2 - 1; // The grid is n x (2n-1) and (0, n-1) is the lexicographically first block.

    let mut blocked = vec![false; n * width];
    blocked[0..n - 1].iter_mut().for_each(|b| *b = true);

    let mut iter = SetEnumeration::new(n, blocked);
    iter.enqueue((n - 1) as u32);

    let mut count = vec![0; n + 1];
    let mut path = Vec::with_capacity(n);
    while let Some(u) = iter.next(&mut path) {
        count[path.len()] += 1;
        if path.len() < n {
            iter.enqueue(u - 1);
            iter.enqueue(u + 1);
            iter.enqueue(u + width as u32);
            if width <= u as _ {
                iter.enqueue(u - width as u32);
            }
        }
    }

    assert_eq!(count[1..], vec![1, 2, 6, 19, 63, 216]);
}

#[test]
fn enumeration_ends_with_empty_path() {
    let mut iter = SetEnumeration::new(3, vec![false; 4]);
    iter.enqueue(1);
    let mut path = Vec::new();
    let mut seen = 0;
    while let Some(u) = iter.next(&mut path) {
        assert_eq!(*path.last().unwrap(), u);
        seen += 1;
        if path.len() < 3 {
            iter.enqueue(2);
            iter.enqueue(3);
        }
    }
    assert!(path.is_empty());
    // {1}, {1,2}, {1,3}, {1,2,3} and the two orders that add 3 after 2 or 2 after 3 coincide.
    assert_eq!(seen, 4);
}
