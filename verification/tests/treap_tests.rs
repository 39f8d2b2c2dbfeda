use sysy_core::treap::TreapList;

#[test]
fn test_treap_list1() {
    let mut tl: TreapList<i32> = TreapList::new();
    for v in [1, 2, 3, 4, 5] {
        tl.push(v);
    }
    // 1, 2, 3, 4, 5
    assert_eq!(tl.size(), 5);
    assert_eq!(tl.sum_range(0..5), 15);
    assert_eq!(tl.get(2).unwrap().clone(), 3);
    assert_eq!(tl.sum_range(1..4), 9);
    tl.push(6);
    assert_eq!(tl.size(), 6);
    tl.push(7);
    assert_eq!(tl.size(), 7);
    // 1, 2, 3, 4, 5, 6, 7
    assert_eq!(tl.sum_range(4..6), 11); // 5 + 6
    tl.remove_range(2..5);
    // 1, 2, 6, 7
    assert_eq!(tl.size(), 4);
    assert_eq!(tl.sum_range(0..3), 9); // 1 + 2 + 6
    tl.remove_range(0..1);
    // 2, 6, 7
    assert_eq!(tl.sum_range(1..3), 13); // 6 + 7
    tl.remove_range(0..3);
    // Empty treap
    assert!(tl.is_empty());
}

#[test]
fn test_treap_list2() {
    // Test with an empty treap
    let mut tl = TreapList::<i32>::new();
    assert!(tl.is_empty());
    assert_eq!(tl.size(), 0);
    assert_eq!(tl.sum_range(0..0), 0);

    // Insert elements at specific positions
    tl.push(10);
    tl.insert_after_k_nodes(20, 1); // Insert after first element
    tl.insert_after_k_nodes(15, 1); // Insert between 10 and 20
    // Now: [10, 15, 20]
    assert_eq!(tl.size(), 3);
    assert_eq!(tl.sum_range(0..3), 45);
    assert_eq!(tl.get(1).unwrap().clone(), 15);

    // Replace elements
    tl.replace(0, 5); // Replace 10 with 5
    tl.replace(2, 25); // Replace 20 with 25
    // Now: [5, 15, 25]
    assert_eq!(tl.sum_range(0..3), 45);
    assert_eq!(tl.get(0).unwrap().clone(), 5);
    assert_eq!(tl.get(2).unwrap().clone(), 25);

    // Test draining from the front
    let mut iter_tl = tl.duplicate();
    assert_eq!(iter_tl.next(), Some(5));
    assert_eq!(iter_tl.next(), Some(15));
    assert_eq!(iter_tl.next(), Some(25));
    assert_eq!(iter_tl.next(), None);
    assert!(iter_tl.is_empty());

    // More complex operations
    tl.push(30);
    tl.push(35);
    tl.push(40);
    // Now: [5, 15, 25, 30, 35, 40]

    // Remove from middle
    tl.remove_range(2..4);
    // Now: [5, 15, 35, 40]
    assert_eq!(tl.size(), 4);
    assert_eq!(tl.sum_range(0..4), 95);

    // Insert after removing
    tl.insert_after_k_nodes(20, 1);
    // Now: [5, 20, 15, 35, 40]
    assert_eq!(tl.size(), 5);
    assert_eq!(tl.sum_range(0..5), 115);

    // Test partial sums
    assert_eq!(tl.sum_range(1..4), 70);
    assert_eq!(tl.sum_range(3..5), 75);

    // Test large number of elements
    let mut large_tl = TreapList::new();
    for i in 0..100 {
        large_tl.push(i);
    }
    assert_eq!(large_tl.size(), 100);
    assert_eq!(large_tl.sum_range(0..100), (0..100).sum::<i32>());
    assert_eq!(large_tl.sum_range(25..75), (25..75).sum::<i32>());

    // Complex test with different operations
    let mut complex_tl = TreapList::new();
    // Build treap with insertion at different positions
    complex_tl.push(50); // [50]
    complex_tl.insert_after_k_nodes(30, 0); // [30, 50]
    complex_tl.insert_after_k_nodes(70, 0); // [70, 30, 50]
    complex_tl.insert_after_k_nodes(10, 2); // [70, 30, 10, 50]
    complex_tl.insert_after_k_nodes(90, 1); // [70, 90, 30, 10, 50]

    assert_eq!(complex_tl.size(), 5);
    assert_eq!(complex_tl.sum_range(0..5), 250);

    // Test range sums in a complex structure
    assert_eq!(complex_tl.sum_range(1..4), 130); // 90 + 30 + 10

    // Remove and insert in complex patterns
    complex_tl.remove_range(1..3); // [70, 10, 50]
    complex_tl.insert_after_k_nodes(20, 2); // [70, 10, 20, 50]
    complex_tl.push(40); // [70, 10, 20, 50, 40]

    assert_eq!(complex_tl.size(), 5);
    assert_eq!(complex_tl.sum_range(0..5), 190);
}

/// The tree answers every query as a plain list replayed through the same
/// operations would.
#[test]
fn test_plain_list_replay() {
    let mut tl: TreapList<i32> = TreapList::new();
    let mut reference: Vec<i32> = Vec::new();

    let check = |tl: &TreapList<i32>, reference: &Vec<i32>| {
        assert_eq!(tl.size(), reference.len());
        for k in 0..reference.len() {
            assert_eq!(*tl.get(k).unwrap(), reference[k]);
        }
        for a in 0..=reference.len() {
            for b in a..=reference.len() {
                let expected: i32 = reference[a..b].iter().sum();
                assert_eq!(tl.sum_range(a..b), expected);
            }
        }
    };

    for (v, k) in [(3, 0), (9, 1), (4, 0), (7, 2), (1, 4), (8, 2)] {
        tl.insert_after_k_nodes(v, k);
        reference.insert(k, v);
        check(&tl, &reference);
    }
    tl.replace(3, 42);
    reference[3] = 42;
    check(&tl, &reference);
    tl.remove_range(1..4);
    reference.drain(1..4);
    check(&tl, &reference);
    tl.push(5);
    reference.push(5);
    check(&tl, &reference);
    tl.remove_range(0..reference.len());
    reference.clear();
    check(&tl, &reference);
}
